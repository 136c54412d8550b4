//! Every measured frame, kept whole.
//!
//! Kept as samples rather than running totals because the trace prints each
//! frame's own numbers, and a running total printed per frame is the kind of
//! near-enough instrumentation that makes a trace useless for finding the one
//! frame that stalled.
use crate::host::frame::FrameCost;
use crate::host::units;
use vstd::prelude::*;
use vstd::string::StringExecFns;

verus! {

/// One measured frame: the host's three boundaries and the device's own split.
#[derive(Clone, Copy, Debug, PartialEq, Eq, Structural)]
pub struct Sample {
    pub total_ns: u64,
    pub begin_ns: u64,
    pub submit_ns: u64,
    pub present_ns: u64,
    pub device_total_ns: u64,
    pub shadow_ns: u64,
    pub raster_ns: u64,
    pub bin_ns: u64,
    pub upload_ns: u64,
    pub spill_wait_ns: u64,
    pub pixels: u32,
    pub triangles: u32,
    pub tiles: u32,
}

/// What the device says of a frame.
#[derive(Clone, Copy, Debug, PartialEq, Eq, Structural)]
pub struct FrameStats {
    pub total_ns: u64,
    pub shadow_ns: u64,
    pub raster_ns: u64,
    pub bin_ns: u64,
    pub upload_ns: u64,
    pub spill_wait_ns: u64,
    pub pixels_shaded: u32,
    pub triangles_binned: u32,
    pub tiles_rendered: u32,
}

/// One figure of a sample.
#[derive(Clone, Copy, Debug, PartialEq, Eq, Structural)]
pub enum Field {
    Total,
    Begin,
    Submit,
    Present,
    DeviceTotal,
    Shadow,
    Raster,
    Bin,
    Upload,
    SpillWait,
    Pixels,
    Triangles,
    Tiles,
}

impl Sample {
    pub open spec fn at(self, field: Field) -> int {
        match field {
            Field::Total => self.total_ns as int,
            Field::Begin => self.begin_ns as int,
            Field::Submit => self.submit_ns as int,
            Field::Present => self.present_ns as int,
            Field::DeviceTotal => self.device_total_ns as int,
            Field::Shadow => self.shadow_ns as int,
            Field::Raster => self.raster_ns as int,
            Field::Bin => self.bin_ns as int,
            Field::Upload => self.upload_ns as int,
            Field::SpillWait => self.spill_wait_ns as int,
            Field::Pixels => self.pixels as int,
            Field::Triangles => self.triangles as int,
            Field::Tiles => self.tiles as int,
        }
    }

    pub fn get(&self, field: Field) -> (r: u64)
        ensures
            r == self.at(field),
    {
        match field {
            Field::Total => self.total_ns,
            Field::Begin => self.begin_ns,
            Field::Submit => self.submit_ns,
            Field::Present => self.present_ns,
            Field::DeviceTotal => self.device_total_ns,
            Field::Shadow => self.shadow_ns,
            Field::Raster => self.raster_ns,
            Field::Bin => self.bin_ns,
            Field::Upload => self.upload_ns,
            Field::SpillWait => self.spill_wait_ns,
            Field::Pixels => self.pixels as u64,
            Field::Triangles => self.triangles as u64,
            Field::Tiles => self.tiles as u64,
        }
    }
}

pub open spec fn sample_of(cost: FrameCost, stats: FrameStats) -> Sample {
    Sample {
        total_ns: cost.total() as u64,
        begin_ns: cost.begin_ns,
        submit_ns: cost.submit_ns,
        present_ns: cost.present_ns,
        device_total_ns: stats.total_ns,
        shadow_ns: stats.shadow_ns,
        raster_ns: stats.raster_ns,
        bin_ns: stats.bin_ns,
        upload_ns: stats.upload_ns,
        spill_wait_ns: stats.spill_wait_ns,
        pixels: stats.pixels_shaded,
        triangles: stats.triangles_binned,
        tiles: stats.tiles_rendered,
    }
}

/// One wall-clock second of a run.
#[derive(Clone, Copy, Debug, PartialEq, Eq, Structural)]
pub struct Second {
    pub frames: u32,
    pub total_ns: u64,
    pub worst_ns: u64,
}

impl Default for Second {
    fn default() -> (r: Self)
        ensures
            r == no_second(),
    {
        Second { frames: 0, total_ns: 0, worst_ns: 0 }
    }
}

pub open spec fn no_second() -> Second {
    Second { frames: 0, total_ns: 0, worst_ns: 0 }
}

/// Every image a run handed over - rendered and generated alike - and the wall
/// time that took: the same measured window as the frames, counted per image.
#[derive(Clone, Copy, Debug, PartialEq, Eq, Structural)]
pub struct Images {
    pub total: u64,
    pub interval_ns: u64,
}

impl Images {
    pub open spec fn is_measured(&self) -> bool {
        self.total > 0 && self.interval_ns > 0
    }

    /// Whether this window delivered anything to divide by.
    pub fn measured(&self) -> (r: bool)
        ensures
            r == self.is_measured(),
    {
        self.total > 0 && self.interval_ns > 0
    }

    pub open spec fn per_second_text(&self) -> Seq<char> {
        if self.is_measured() {
            units::fps_text((self.interval_ns as int / self.total as int) as nat)
        } else {
            "0"@
        }
    }

    /// Images per second over the window, through the same mean-frame-time
    /// conversion every other rate uses: one definition, so the two sections of
    /// one report cannot state different rates for one window.
    pub fn per_second(&self) -> (r: String)
        ensures
            r@ == self.per_second_text(),
    {
        if !self.measured() {
            return String::from_str("0");
        }
        units::fps(self.interval_ns / self.total)
    }
}

/// A figure summed over samples.
pub open spec fn sum(samples: Seq<Sample>, field: Field) -> int
    decreases samples.len(),
{
    if samples.len() == 0 {
        0
    } else {
        sum(samples.drop_last(), field) + samples.last().at(field)
    }
}

/// The mean of a figure: none where there are no samples.
pub open spec fn mean_of(samples: Seq<Sample>, field: Field) -> int {
    if samples.len() == 0 {
        0
    } else {
        sum(samples, field) / samples.len() as int
    }
}

/// The shortest frame.
pub open spec fn shortest(samples: Seq<Sample>) -> int
    decreases samples.len(),
{
    if samples.len() == 0 {
        0
    } else if samples.len() == 1 {
        samples[0].total_ns as int
    } else {
        let before = shortest(samples.drop_last());
        let last = samples.last().total_ns as int;
        if last < before {
            last
        } else {
            before
        }
    }
}

/// The longest frame.
pub open spec fn longest(samples: Seq<Sample>) -> int
    decreases samples.len(),
{
    if samples.len() == 0 {
        0
    } else {
        let before = longest(samples.drop_last());
        let last = samples.last().total_ns as int;
        if last > before {
            last
        } else {
            before
        }
    }
}

pub open spec fn frames_in(seconds: Seq<Second>) -> int
    decreases seconds.len(),
{
    if seconds.len() == 0 {
        0
    } else {
        frames_in(seconds.drop_last()) + seconds.last().frames
    }
}

pub open spec fn time_in(seconds: Seq<Second>) -> int
    decreases seconds.len(),
{
    if seconds.len() == 0 {
        0
    } else {
        time_in(seconds.drop_last()) + seconds.last().total_ns
    }
}

/// Seconds with room for one more.
pub open spec fn up_to(seconds: Seq<Second>, bucket: int) -> Seq<Second> {
    if seconds.len() <= bucket {
        seconds + Seq::new((bucket + 1 - seconds.len()) as nat, |i: int| no_second())
    } else {
        seconds
    }
}

/// A second with one more frame in it.
pub open spec fn with_frame(s: Second, ns: u64) -> Second {
    Second {
        frames: (s.frames + 1) as u32,
        total_ns: (s.total_ns + ns) as u64,
        worst_ns: if ns > s.worst_ns {
            ns
        } else {
            s.worst_ns
        },
    }
}

/// A "second" is a wall-clock second of the run, not a frame count, so a slow
/// configuration shows the stall in the bucket it happened in.
pub open spec fn bucket_of(elapsed_ns: int) -> int {
    elapsed_ns / 1_000_000_000
}

pub struct Run {
    pub samples: Vec<Sample>,
    pub per_second: Vec<Second>,
    pub elapsed_ns: u64,
}

impl Run {
    /// Every frame is booked in one second, with the time it took.
    pub open spec fn wf(&self) -> bool {
        &&& self.elapsed_ns == sum(self.samples@, Field::Total)
        &&& frames_in(self.per_second@) == self.samples@.len()
        &&& time_in(self.per_second@) == self.elapsed_ns
    }

    /// The seconds are those of the frames that were recorded.
    pub open spec fn is_booked(&self) -> bool {
        self.per_second@ == seconds_of(lengths(self.samples@))
    }

    pub fn new() -> (r: Run)
        ensures
            r.wf(),
            r.is_booked(),
            r.samples@.len() == 0,
            r.per_second@.len() == 0,
            r.elapsed_ns == 0,
    {
        Run { samples: Vec::new(), per_second: Vec::new(), elapsed_ns: 0 }
    }

    pub fn frames(&self) -> (r: u32)
        ensures
            r == self.samples@.len() % 0x1_0000_0000,
    {
        assert(self.samples.len() == self.samples@.len());
        (self.samples.len() as u64 % 0x1_0000_0000) as u32
    }

    /// Books one measured frame.
    pub fn record(&mut self, cost: FrameCost, stats: &FrameStats)
        requires
            old(self).wf(),
            old(self).elapsed_ns + cost.total() <= u64::MAX,
            old(self).samples@.len() < u32::MAX,
            bucket_of(old(self).elapsed_ns + cost.total()) < usize::MAX,
        ensures
            final(self).wf(),
            final(self).samples@ == old(self).samples@.push(sample_of(cost, *stats)),
            final(self).elapsed_ns == old(self).elapsed_ns + cost.total(),
            ({
                let bucket = bucket_of(final(self).elapsed_ns as int);
                let seconds = up_to(old(self).per_second@, bucket);
                final(self).per_second@ == seconds.update(
                    bucket,
                    with_frame(seconds[bucket], cost.total() as u64),
                )
            }),
            old(self).is_booked() ==> final(self).is_booked(),
    {
        let total: u64 = cost.total_ns();
        let sample = Sample {
            total_ns: total,
            begin_ns: cost.begin_ns,
            submit_ns: cost.submit_ns,
            present_ns: cost.present_ns,
            device_total_ns: stats.total_ns,
            shadow_ns: stats.shadow_ns,
            raster_ns: stats.raster_ns,
            bin_ns: stats.bin_ns,
            upload_ns: stats.upload_ns,
            spill_wait_ns: stats.spill_wait_ns,
            pixels: stats.pixels_shaded,
            triangles: stats.triangles_binned,
            tiles: stats.tiles_rendered,
        };
        let ghost samples = self.samples@;
        let ghost seconds = self.per_second@;
        self.samples.push(sample);
        assert(samples.push(sample).drop_last() =~= samples);
        self.elapsed_ns = self.elapsed_ns + total;
        let bucket: usize = (self.elapsed_ns / 1_000_000_000) as usize;
        while self.per_second.len() <= bucket
            invariant
                self.samples@ == samples.push(sample),
                self.elapsed_ns == old(self).elapsed_ns + total,
                bucket < usize::MAX,
                seconds.len() <= self.per_second@.len(),
                self.per_second@.len() <= bucket + 1 || self.per_second@ == seconds,
                self.per_second@ == seconds + Seq::new(
                    (self.per_second@.len() - seconds.len()) as nat,
                    |i: int| no_second(),
                ),
                frames_in(self.per_second@) == frames_in(seconds),
                time_in(self.per_second@) == time_in(seconds),
            decreases bucket + 1 - self.per_second@.len(),
        {
            let ghost before = self.per_second@;
            self.per_second.push(Second::default());
            assert(self.per_second@.drop_last() =~= before);
            assert(self.per_second@ =~= seconds + Seq::new(
                (self.per_second@.len() - seconds.len()) as nat,
                |i: int| no_second(),
            ));
        }
        let ghost room = self.per_second@;
        assert(room =~= up_to(seconds, bucket as int));
        let second = self.per_second[bucket];
        proof {
            lemma_second_fits(room, bucket as int);
        }
        let worst: u64 = if total > second.worst_ns {
            total
        } else {
            second.worst_ns
        };
        let after = Second {
            frames: second.frames + 1,
            total_ns: second.total_ns + total,
            worst_ns: worst,
        };
        self.per_second.set(bucket, after);
        proof {
            lemma_second_updated(room, bucket as int, after);
            lemma_lengths(samples);
            assert(lengths(samples.push(sample)) =~= lengths(samples).push(total));
            lemma_time_prefix(
                lengths(samples).push(total),
                lengths(samples),
                samples.len() - 1,
            );
            law_a_run_is_recorded_frame_by_frame(lengths(samples), total);
        }
    }

    /// A figure summed over every measured frame.
    pub fn total(&self, field: Field) -> (r: u64)
        requires
            sum(self.samples@, field) <= u64::MAX,
        ensures
            r == sum(self.samples@, field),
    {
        let mut r: u64 = 0;
        let mut i: usize = 0;
        while i < self.samples.len()
            invariant
                i <= self.samples@.len(),
                sum(self.samples@, field) <= u64::MAX,
                r == sum(self.samples@.take(i as int), field),
            decreases self.samples@.len() - i,
        {
            proof {
                lemma_sum_grows(self.samples@, field, i + 1);
                assert(self.samples@.take(i + 1).drop_last() =~= self.samples@.take(i as int));
            }
            r = r + self.samples[i].get(field);
            i += 1;
        }
        assert(self.samples@.take(i as int) =~= self.samples@);
        r
    }

    /// The mean of one figure over every measured frame.
    pub fn mean(&self, field: Field) -> (r: u64)
        requires
            sum(self.samples@, field) <= u64::MAX,
        ensures
            r == mean_of(self.samples@, field),
    {
        if self.samples.len() == 0 {
            0
        } else {
            assert(self.samples.len() == self.samples@.len());
            self.total(field) / self.samples.len() as u64
        }
    }

    /// The shortest, the mean and the longest frame.
    pub fn bounds(&self) -> (r: (u64, u64, u64))
        requires
            sum(self.samples@, Field::Total) <= u64::MAX,
        ensures
            r.0 == shortest(self.samples@),
            r.1 == mean_of(self.samples@, Field::Total),
            r.2 == longest(self.samples@),
    {
        let mut min: u64 = 0;
        let mut max: u64 = 0;
        let mut i: usize = 0;
        while i < self.samples.len()
            invariant
                i <= self.samples@.len(),
                min == shortest(self.samples@.take(i as int)),
                max == longest(self.samples@.take(i as int)),
            decreases self.samples@.len() - i,
        {
            assert(self.samples@.take(i + 1).drop_last() =~= self.samples@.take(i as int));
            let ns: u64 = self.samples[i].total_ns;
            if i == 0 || ns < min {
                min = ns;
            }
            if ns > max {
                max = ns;
            }
            i += 1;
        }
        assert(self.samples@.take(i as int) =~= self.samples@);
        (min, self.mean(Field::Total), max)
    }
}

proof fn lemma_sum_grows(samples: Seq<Sample>, field: Field, n: int)
    requires
        0 <= n <= samples.len(),
    ensures
        0 <= sum(samples.take(n), field) <= sum(samples, field),
    decreases samples.len(),
{
    if n == samples.len() {
        assert(samples.take(n) =~= samples);
        if n > 0 {
            lemma_sum_grows(samples.drop_last(), field, n - 1);
            assert(samples.drop_last().take(n - 1) =~= samples.drop_last());
        }
    } else {
        lemma_sum_grows(samples.drop_last(), field, n);
        assert(samples.drop_last().take(n) =~= samples.take(n));
    }
}

/// No second holds more than all of them.
proof fn lemma_second_fits(seconds: Seq<Second>, i: int)
    requires
        0 <= i < seconds.len(),
    ensures
        seconds[i].frames <= frames_in(seconds),
        seconds[i].total_ns <= time_in(seconds),
    decreases seconds.len(),
{
    lemma_seconds_nonnegative(seconds.drop_last());
    if i < seconds.len() - 1 {
        lemma_second_fits(seconds.drop_last(), i);
    }
}

proof fn lemma_seconds_nonnegative(seconds: Seq<Second>)
    ensures
        0 <= frames_in(seconds),
        0 <= time_in(seconds),
    decreases seconds.len(),
{
    if seconds.len() > 0 {
        lemma_seconds_nonnegative(seconds.drop_last());
    }
}

proof fn lemma_second_updated(seconds: Seq<Second>, i: int, s: Second)
    requires
        0 <= i < seconds.len(),
    ensures
        frames_in(seconds.update(i, s)) == frames_in(seconds) - seconds[i].frames + s.frames,
        time_in(seconds.update(i, s)) == time_in(seconds) - seconds[i].total_ns + s.total_ns,
    decreases seconds.len(),
{
    let after = seconds.update(i, s);
    if i == seconds.len() - 1 {
        assert(after.drop_last() =~= seconds.drop_last());
    } else {
        lemma_second_updated(seconds.drop_last(), i, s);
        assert(after.drop_last() =~= seconds.drop_last().update(i, s));
    }
}

/// When the frames are over: the time all of them took up to and with each one.
pub open spec fn time_at(totals: Seq<u64>, i: int) -> int
    decreases i + 1,
{
    if i < 0 {
        0
    } else {
        time_at(totals, i - 1) + totals[i]
    }
}

/// The seconds after frames of these lengths were recorded one by one.
pub open spec fn seconds_of(totals: Seq<u64>) -> Seq<Second>
    decreases totals.len(),
{
    if totals.len() == 0 {
        Seq::empty()
    } else {
        let bucket = bucket_of(time_at(totals, totals.len() - 1));
        let seconds = up_to(seconds_of(totals.drop_last()), bucket);
        seconds.update(bucket, with_frame(seconds[bucket], totals.last()))
    }
}

/// How long each frame took.
pub open spec fn lengths(samples: Seq<Sample>) -> Seq<u64> {
    Seq::new(samples.len(), |i: int| samples[i].total_ns)
}

proof fn lemma_lengths(samples: Seq<Sample>)
    ensures
        time_at(lengths(samples), samples.len() - 1) == sum(samples, Field::Total),
    decreases samples.len(),
{
    if samples.len() > 0 {
        let rest = samples.drop_last();
        lemma_lengths(rest);
        lemma_time_prefix(lengths(samples), lengths(rest), rest.len() - 1);
    }
}

/// The frames that end in a second: those behind which a time from `second` on and
/// less than a second more has passed.
pub open spec fn frames_of(totals: Seq<u64>, second: int) -> Set<int> {
    vstd::set_lib::set_int_range(0, totals.len() as int).filter(
        |i: int|
            second * 1_000_000_000 <= time_at(totals, i) < second * 1_000_000_000 + 1_000_000_000,
    )
}

proof fn lemma_time_prefix(totals: Seq<u64>, shorter: Seq<u64>, i: int)
    requires
        i < shorter.len() <= totals.len(),
        forall|k: int| 0 <= k < shorter.len() ==> totals[k] == shorter[k],
    ensures
        time_at(totals, i) == time_at(shorter, i),
        0 <= time_at(totals, i),
    decreases i + 1,
{
    if i >= 0 {
        lemma_time_prefix(totals, shorter, i - 1);
    }
}

/// The lengths of the frames of a set together.
pub open spec fn time_of(totals: Seq<u64>, frames: Set<int>, n: int) -> int
    decreases n,
{
    if n <= 0 {
        0
    } else {
        time_of(totals, frames, n - 1) + if frames.contains(n - 1) {
            totals[n - 1] as int
        } else {
            0
        }
    }
}

proof fn lemma_time_of(totals: Seq<u64>, a: Set<int>, other: Seq<u64>, b: Set<int>, n: int)
    requires
        n <= totals.len(),
        n <= other.len(),
        forall|i: int| 0 <= i < n ==> totals[i] == other[i],
        forall|i: int| 0 <= i < n ==> (#[trigger] a.contains(i) <==> b.contains(i)),
    ensures
        time_of(totals, a, n) == time_of(other, b, n),
        0 <= time_of(totals, a, n),
    decreases n,
{
    if n > 0 {
        lemma_time_of(totals, a, other, b, n - 1);
        assert(a.contains(n - 1) <==> b.contains(n - 1));
    }
}

/// A second of a run is what its frames are: how many end in it, how long they took
/// together, and the longest of them.
pub open spec fn is_second(totals: Seq<u64>, second: int, s: Second) -> bool {
    let frames = frames_of(totals, second);
    &&& s.frames == frames.len()
    &&& s.total_ns == time_of(totals, frames, totals.len() as int)
    &&& forall|i: int| #[trigger] frames.contains(i) ==> totals[i] <= s.worst_ns
    &&& s.frames > 0 ==> exists|i: int| #[trigger] frames.contains(i) && totals[i] == s.worst_ns
    &&& s.frames == 0 ==> s.worst_ns == 0
}

/// Every frame of a run is booked once, in the second it ends in: each second has the
/// number of its frames, the time they took together and the longest of them.
pub proof fn law_a_second_is_what_its_frames_are(totals: Seq<u64>, second: int)
    requires
        totals.len() <= u32::MAX,
        time_at(totals, totals.len() - 1) <= u64::MAX,
        0 <= second < seconds_of(totals).len(),
    ensures
        frames_of(totals, second).finite(),
        ({
            let s = seconds_of(totals)[second];
            let frames = frames_of(totals, second);
            &&& s.frames == frames.len()
            &&& s.total_ns == time_of(totals, frames, totals.len() as int)
            &&& forall|i: int| #[trigger] frames.contains(i) ==> totals[i] <= s.worst_ns
            &&& s.frames > 0 ==> exists|i: int|
                #[trigger] frames.contains(i) && totals[i] == s.worst_ns
            &&& s.total_ns <= s.frames * s.worst_ns
        }),
        forall|i: int|
            0 <= i < totals.len() ==> 0 <= #[trigger] time_at(totals, i) < seconds_of(totals).len()
                * 1_000_000_000,
{
    lemma_seconds(totals);
    assert(is_second(totals, second, seconds_of(totals)[second]));
    let s = seconds_of(totals)[second];
    let frames = frames_of(totals, second);
    vstd::set_lib::lemma_int_range(0, totals.len() as int);
    lemma_time_bounded(totals, frames, s.worst_ns as int, totals.len() as int);
    assert(frames.intersect(vstd::set_lib::set_int_range(0, totals.len() as int)) =~= frames);
    assert(s.worst_ns * frames.len() == frames.len() * s.worst_ns) by (nonlinear_arith);
}

proof fn lemma_time_bounded(totals: Seq<u64>, frames: Set<int>, most: int, n: int)
    requires
        0 <= n <= totals.len(),
        0 <= most,
        forall|i: int| 0 <= i < n && #[trigger] frames.contains(i) ==> totals[i] <= most,
    ensures
        time_of(totals, frames, n) <= most * frames.intersect(
            vstd::set_lib::set_int_range(0, n),
        ).len(),
    decreases n,
{
    let now = frames.intersect(vstd::set_lib::set_int_range(0, n));
    vstd::set_lib::lemma_int_range(0, n);
    if n > 0 {
        lemma_time_bounded(totals, frames, most, n - 1);
        vstd::set_lib::lemma_int_range(0, n - 1);
        let before = frames.intersect(vstd::set_lib::set_int_range(0, n - 1));
        if frames.contains(n - 1) {
            assert(now =~= before.insert(n - 1));
            assert(most * (before.len() + 1) == most * before.len() + most) by (nonlinear_arith);
        } else {
            assert(now =~= before);
        }
    } else {
        assert(now =~= Set::empty());
    }
}

proof fn lemma_seconds(totals: Seq<u64>)
    requires
        totals.len() <= u32::MAX,
        time_at(totals, totals.len() - 1) <= u64::MAX,
    ensures
        forall|k: int|
            0 <= k < seconds_of(totals).len() ==> is_second(
                totals,
                k,
                #[trigger] seconds_of(totals)[k],
            ),
        forall|i: int|
            0 <= i < totals.len() ==> 0 <= #[trigger] time_at(totals, i) < seconds_of(totals).len()
                * 1_000_000_000,
    decreases totals.len(),
{
    if totals.len() > 0 {
        let rest = totals.drop_last();
        let n = rest.len() as int;
        let last = totals.last();
        lemma_time_prefix(totals, rest, n - 1);
        lemma_seconds(rest);
        let at = time_at(totals, n);
        let bucket = bucket_of(at);
        let seconds = up_to(seconds_of(rest), bucket);
        let after = seconds_of(totals);
        assert(bucket * 1_000_000_000 <= at < bucket * 1_000_000_000 + 1_000_000_000);
        assert forall|i: int| 0 <= i < totals.len() implies 0 <= #[trigger] time_at(totals, i)
            < after.len() * 1_000_000_000 by {
            if i < n {
                lemma_time_prefix(totals, rest, i);
                assert(0 <= time_at(rest, i) < seconds_of(rest).len() * 1_000_000_000);
            }
        }
        assert forall|k: int| 0 <= k < after.len() implies is_second(
            totals,
            k,
            #[trigger] after[k],
        ) by {
            let now = frames_of(totals, k);
            let before = frames_of(rest, k);
            vstd::set_lib::lemma_int_range(0, n);
            vstd::set_lib::lemma_int_range(0, n + 1);
            assert forall|i: int| 0 <= i < n implies (#[trigger] before.contains(i)
                <==> now.contains(i)) by {
                lemma_time_prefix(totals, rest, i);
            }
            lemma_time_of(rest, before, totals, now, n);
            // What the second was before this frame.
            let was = seconds[k];
            if k < seconds_of(rest).len() {
                assert(is_second(rest, k, seconds_of(rest)[k]));
            } else {
                assert forall|i: int| !before.contains(i) by {
                    if before.contains(i) {
                        assert(0 <= time_at(rest, i) < seconds_of(rest).len() * 1_000_000_000);
                        assert(k * 1_000_000_000 <= time_at(rest, i));
                    }
                }
                assert(before =~= Set::empty());
                lemma_time_of_none(rest, before, n);
                assert(was == no_second());
            }
            assert(is_second(rest, k, was));
            if k == bucket {
                assert(now.contains(n));
                assert(now =~= before.insert(n));
                lemma_time_share(totals, now, n);
                lemma_seconds_fit(rest, before, n);
                assert(was.total_ns + last <= u64::MAX);
                assert(before.len() <= n) by {
                    vstd::set_lib::lemma_len_subset(
                        before,
                        vstd::set_lib::set_int_range(0, n),
                    );
                }
                if last > was.worst_ns || was.frames == 0 {
                    assert(totals[n] == after[k].worst_ns);
                } else {
                    let i = choose|i: int| #[trigger]
                        before.contains(i) && rest[i] == was.worst_ns;
                    assert(now.contains(i) && totals[i] == after[k].worst_ns);
                }
                assert forall|i: int| #[trigger] now.contains(i) implies totals[i]
                    <= after[k].worst_ns by {
                    if i < n {
                        assert(before.contains(i));
                    }
                }
            } else {
                assert(!now.contains(n));
                assert(now =~= before);
                assert(after[k] == was);
                assert forall|i: int| #[trigger] now.contains(i) implies totals[i]
                    <= after[k].worst_ns by {
                    assert(before.contains(i));
                }
                if was.frames > 0 {
                    let i = choose|i: int| #[trigger]
                        before.contains(i) && rest[i] == was.worst_ns;
                    assert(now.contains(i) && totals[i] == after[k].worst_ns);
                }
            }
        }
    }
}

proof fn lemma_time_of_none(totals: Seq<u64>, frames: Set<int>, n: int)
    requires
        forall|i: int| !frames.contains(i),
    ensures
        time_of(totals, frames, n) == 0,
    decreases n,
{
    if n > 0 {
        lemma_time_of_none(totals, frames, n - 1);
    }
}

/// The last frame takes its part of the time.
proof fn lemma_time_share(totals: Seq<u64>, frames: Set<int>, n: int)
    requires
        0 <= n,
        n + 1 == totals.len(),
        frames.contains(n),
    ensures
        time_of(totals, frames, n + 1) == time_of(totals, frames, n) + totals[n],
{
}

/// Some of the frames take no longer than all of them.
proof fn lemma_seconds_fit(totals: Seq<u64>, frames: Set<int>, n: int)
    requires
        n <= totals.len(),
    ensures
        time_of(totals, frames, n) <= time_at(totals, n - 1),
    decreases n,
{
    if n > 0 {
        lemma_seconds_fit(totals, frames, n - 1);
    }
}

/// Recording one more frame goes from the seconds of the frames before to the
/// seconds with it.
pub proof fn law_a_run_is_recorded_frame_by_frame(totals: Seq<u64>, total: u64)
    ensures
        ({
            let all = totals.push(total);
            let bucket = bucket_of(time_at(all, totals.len() as int));
            let seconds = up_to(seconds_of(totals), bucket);
            seconds_of(all) == seconds.update(bucket, with_frame(seconds[bucket], total))
        }),
{
    assert(totals.push(total).drop_last() =~= totals);
}

/// The bounds of a run are its shortest and its longest frame, and its mean is the
/// time of all frames over their number, rounded down.
pub proof fn law_the_bounds_are_those_of_the_frames(samples: Seq<Sample>)
    requires
        samples.len() > 0,
    ensures
        forall|i: int|
            0 <= i < samples.len() ==> shortest(samples) <= (#[trigger] samples[i]).total_ns
                <= longest(samples),
        exists|i: int|
            0 <= i < samples.len() && (#[trigger] samples[i]).total_ns == shortest(samples),
        exists|i: int|
            0 <= i < samples.len() && (#[trigger] samples[i]).total_ns == longest(samples),
        forall|field: Field|
            {
                let (n, total) = (samples.len() as int, sum(samples, field));
                n * #[trigger] mean_of(samples, field) <= total < n * mean_of(samples, field) + n
            },
    decreases samples.len(),
{
    let rest = samples.drop_last();
    let n = samples.len() as int;
    assert(samples[n - 1] == samples.last());
    if n > 1 {
        law_the_bounds_are_those_of_the_frames(rest);
        assert forall|i: int| 0 <= i < samples.len() implies shortest(samples) <= (
        #[trigger] samples[i]).total_ns <= longest(samples) by {
            if i < n - 1 {
                assert(rest[i] == samples[i]);
            }
        }
        let i = choose|i: int| 0 <= i < rest.len() && (#[trigger] rest[i]).total_ns == shortest(rest);
        let j = choose|j: int| 0 <= j < rest.len() && (#[trigger] rest[j]).total_ns == longest(rest);
        assert(samples[i] == rest[i] && samples[j] == rest[j]);
    }
    assert forall|field: Field|
        {
            let total = sum(samples, field);
            n * #[trigger] mean_of(samples, field) <= total < n * mean_of(samples, field) + n
        } by {
        let total = sum(samples, field);
        vstd::arithmetic::div_mod::lemma_fundamental_div_mod(total, n);
        vstd::arithmetic::div_mod::lemma_mod_bound(total, n);
    }
}

/// A figure summed over a run is that of its frames: runs one behind the other add up,
/// and a single frame's is its own.
pub proof fn law_figures_add_up(a: Seq<Sample>, b: Seq<Sample>, one: Sample, field: Field)
    ensures
        sum(a + b, field) == sum(a, field) + sum(b, field),
        sum(seq![one], field) == one.at(field),
    decreases b.len(),
{
    reveal_with_fuel(sum, 2);
    assert(seq![one].drop_last() =~= Seq::empty());
    if b.len() == 0 {
        assert(a + b =~= a);
    } else {
        law_figures_add_up(a, b.drop_last(), one, field);
        assert((a + b).drop_last() =~= a + b.drop_last());
    }
}

/// The mean lies between the shortest and the longest frame.
pub proof fn law_the_mean_lies_between_its_bounds(samples: Seq<Sample>)
    requires
        samples.len() > 0,
    ensures
        shortest(samples) <= mean_of(samples, Field::Total) <= longest(samples),
{
    lemma_sum_between(samples);
    let n = samples.len() as int;
    let total = sum(samples, Field::Total);
    vstd::arithmetic::div_mod::lemma_fundamental_div_mod(total, n);
    vstd::arithmetic::div_mod::lemma_mod_bound(total, n);
    let (lo, hi, q) = (shortest(samples), longest(samples), total / n);
    assert(lo <= q <= hi) by (nonlinear_arith)
        requires
            total == n * q + total % n,
            0 <= total % n < n,
            lo * n <= total <= hi * n;
}

proof fn lemma_sum_between(samples: Seq<Sample>)
    requires
        samples.len() > 0,
    ensures
        shortest(samples) * samples.len() <= sum(samples, Field::Total) <= longest(samples)
            * samples.len(),
        0 <= shortest(samples),
    decreases samples.len(),
{
    let rest = samples.drop_last();
    let n = rest.len() as int;
    let last = samples.last().total_ns as int;
    if rest.len() == 0 {
        assert(rest =~= Seq::<Sample>::empty());
        assert(sum(rest, Field::Total) == 0);
        assert(longest(rest) == 0);
        assert(last * 1 == last);
    } else {
        lemma_sum_between(rest);
        let (a, b) = (shortest(rest), longest(rest));
        let (c, d) = (shortest(samples), longest(samples));
        let t = sum(rest, Field::Total);
        assert(c * (n + 1) <= t + last) by (nonlinear_arith)
            requires
                a * n <= t,
                c <= a,
                c <= last,
                n >= 0;
        assert(t + last <= d * (n + 1)) by (nonlinear_arith)
            requires
                t <= b * n,
                b <= d,
                last <= d,
                n >= 0;
    }
}

/// A sample keeps the figures of its frame, and its time is that of the frame's three
/// parts together.
pub proof fn law_a_sample_keeps_the_figures_of_its_frame(cost: FrameCost, stats: FrameStats)
    requires
        cost.begin_ns + cost.submit_ns + cost.present_ns <= u64::MAX,
    ensures
        ({
            let s = sample_of(cost, stats);
            &&& s.total_ns == s.begin_ns + s.submit_ns + s.present_ns
            &&& (s.begin_ns, s.submit_ns, s.present_ns) == (
                cost.begin_ns,
                cost.submit_ns,
                cost.present_ns,
            )
            &&& (s.device_total_ns, s.shadow_ns, s.raster_ns) == (
                stats.total_ns,
                stats.shadow_ns,
                stats.raster_ns,
            )
            &&& (s.bin_ns, s.upload_ns, s.spill_wait_ns) == (
                stats.bin_ns,
                stats.upload_ns,
                stats.spill_wait_ns,
            )
            &&& (s.pixels, s.triangles, s.tiles) == (
                stats.pixels_shaded,
                stats.triangles_binned,
                stats.tiles_rendered,
            )
        }),
{
}

} // verus!
