//! The order of a run: what is rendered, what is generated, and when the counters
//! start.
use crate::bench::ratio;
use vstd::prelude::*;

verus! {

/// What to do next.
#[derive(Clone, Copy, Debug, PartialEq, Eq, Structural)]
pub enum Action {
    /// Render an unmeasured frame with this seed: the first frames of any backend
    /// pay for allocation and cache misses that a steady state does not.
    Warm(u32),
    /// Zero the device's counters and the allocator's ledger.
    Reset,
    /// Render and measure a frame with this seed.
    Render(u32),
    /// Present an image `step` parts of `count` of an interval ahead of the newest
    /// frame: the images of an interval are spread evenly up to where the next
    /// rendered frame lands.
    Generate { step: u32, count: u32 },
    /// Report.
    Finish,
}

/// Where a run stands.
#[derive(Clone, Copy, Debug, PartialEq, Eq, Structural)]
pub enum Phase {
    Warmup(u32),
    Measure(u32),
    Generate { frame: u32, step: u32, count: u32 },
}

/// A run in progress.
#[derive(Clone, Copy, Debug)]
pub struct Session {
    pub warmup: u32,
    pub frames: u32,
    pub framegen: Option<(u32, u32)>,
    pub phase: Phase,
}

/// The images presented between one rendered frame and the next, from `step` on.
pub open spec fn generated(step: int, count: int) -> Seq<Action>
    decreases count - step,
{
    if step < count {
        seq![Action::Generate { step: step as u32, count: count as u32 }] + generated(
            step + 1,
            count,
        )
    } else {
        seq![]
    }
}

impl Session {
    pub open spec fn wf(&self) -> bool {
        &&& self.warmup + self.frames <= u32::MAX
        &&& match self.framegen {
            Some((num, den)) => den > 0,
            None => true,
        }
        &&& match self.phase {
            Phase::Warmup(i) => i <= self.warmup,
            Phase::Measure(i) => i <= self.frames,
            Phase::Generate { frame, step, count } => frame < self.frames && 1 <= step < count,
        }
    }

    /// The images of an interval, the rendered frame among them.
    pub open spec fn images_of(&self, frame: int) -> int {
        match self.framegen {
            Some((num, den)) => ratio::images_in(frame, num as int, den as int),
            None => 0,
        }
    }

    /// The warmup from frame `i` on, and the start of the measurement.
    pub open spec fn warming(&self, i: int) -> Seq<Action>
        decreases self.warmup - i,
    {
        if i < self.warmup {
            seq![Action::Warm((1 + i) as u32)] + self.warming(i + 1)
        } else {
            seq![Action::Reset]
        }
    }

    /// The measured frames from `i` on.
    pub open spec fn measuring(&self, i: int) -> Seq<Action>
        decreases self.frames - i,
    {
        if i < self.frames {
            seq![Action::Render((1 + self.warmup + i) as u32)] + generated(1, self.images_of(i))
                + self.measuring(i + 1)
        } else {
            seq![Action::Finish]
        }
    }

    /// Everything a run still does.
    pub open spec fn remaining(&self) -> Seq<Action> {
        match self.phase {
            Phase::Warmup(i) => self.warming(i as int) + self.measuring(0),
            Phase::Measure(i) => self.measuring(i as int),
            Phase::Generate { frame, step, count } => generated(step as int, count as int)
                + self.measuring(frame + 1),
        }
    }

    pub fn new(warmup: u32, frames: u32, framegen: Option<(u32, u32)>) -> (r: Session)
        requires
            warmup + frames <= u32::MAX,
            match framegen {
                Some((num, den)) => den > 0,
                None => true,
            },
        ensures
            r.wf(),
            r.warmup == warmup,
            r.frames == frames,
            r.framegen == framegen,
            r.remaining() == r.warming(0) + r.measuring(0),
    {
        Session { warmup, frames, framegen, phase: Phase::Warmup(0) }
    }

    /// The next thing to do. A run that is finished stays so.
    pub fn next(&mut self) -> (r: Action)
        requires
            old(self).wf(),
        ensures
            final(self).wf(),
            final(self).warmup == old(self).warmup,
            final(self).frames == old(self).frames,
            final(self).framegen == old(self).framegen,
            old(self).remaining().len() > 0,
            r == old(self).remaining()[0],
            r == Action::Finish ==> *final(self) == *old(self),
            r != Action::Finish ==> final(self).remaining() == old(self).remaining().skip(1),
    {
        let ghost before = *self;
        let ghost todo = self.remaining();
        match self.phase {
            Phase::Warmup(i) => {
                let r = if i < self.warmup {
                    self.phase = Phase::Warmup(i + 1);
                    Action::Warm(1 + i)
                } else {
                    self.phase = Phase::Measure(0);
                    Action::Reset
                };
                proof {
                    before.lemma_same_course(*self, i as int);
                    before.lemma_same_course(*self, 0);
                    before.lemma_same_course(*self, i + 1);
                    assert(self.remaining() =~= todo.skip(1));
                }
                r
            },
            Phase::Measure(i) => {
                if i < self.frames {
                    let count: u32 = match self.framegen {
                        Some((num, den)) => ratio::images_in_interval(i, num, den),
                        None => 0,
                    };
                    self.phase = if 1 < count {
                        Phase::Generate { frame: i, step: 1, count }
                    } else {
                        Phase::Measure(i + 1)
                    };
                    proof {
                        before.lemma_same_course(*self, i + 1);
                        assert(self.remaining() =~= todo.skip(1));
                    }
                    Action::Render(1 + self.warmup + i)
                } else {
                    Action::Finish
                }
            },
            Phase::Generate { frame, step, count } => {
                self.phase = if step + 1 < count {
                    Phase::Generate { frame, step: step + 1, count }
                } else {
                    Phase::Measure(frame + 1)
                };
                proof {
                    before.lemma_same_course(*self, frame + 1);
                    assert(generated(count as int, count as int) =~= seq![]);
                    assert(self.remaining() =~= todo.skip(1));
                }
                Action::Generate { step, count }
            },
        }
    }

    /// What is still to be warmed and measured does not depend on the phase.
    proof fn lemma_same_course(self, other: Session, i: int)
        requires
            self.warmup == other.warmup,
            self.frames == other.frames,
            self.framegen == other.framegen,
        ensures
            self.warming(i) == other.warming(i),
            self.measuring(i) == other.measuring(i),
        decreases (if i < self.warmup { self.warmup - i } else { 0 }) + (if i < self.frames { self.frames - i } else { 0 }),
    {
        if i < self.warmup || i < self.frames {
            self.lemma_same_course(other, i + 1);
        }
    }
}

/// How many images some actions present.
pub open spec fn images_among(actions: Seq<Action>) -> int
    decreases actions.len(),
{
    if actions.len() == 0 {
        0
    } else {
        images_among(actions.drop_last()) + match actions.last() {
            Action::Render(_) => 1int,
            Action::Generate { .. } => 1,
            _ => 0,
        }
    }
}

proof fn lemma_images_of_two(a: Seq<Action>, b: Seq<Action>)
    ensures
        images_among(a + b) == images_among(a) + images_among(b),
    decreases b.len(),
{
    if b.len() == 0 {
        assert(a + b =~= a);
    } else {
        lemma_images_of_two(a, b.drop_last());
        assert((a + b).drop_last() =~= a + b.drop_last());
    }
}

proof fn lemma_generated_images(step: int, count: int)
    requires
        step <= count,
    ensures
        images_among(generated(step, count)) == count - step,
    decreases count - step,
{
    if step < count {
        let head = seq![Action::Generate { step: step as u32, count: count as u32 }];
        lemma_generated_images(step + 1, count);
        lemma_images_of_two(head, generated(step + 1, count));
        assert(head.drop_last() =~= seq![]);
        assert(images_among(head.drop_last()) == 0);
    }
}

/// A run at a ratio presents what the ratio implies: as many images as frames
/// times the ratio, rounded up.
pub proof fn law_a_run_presents_its_ratio(s: Session, i: int)
    requires
        s.wf(),
        s.framegen is Some,
        ({
            let (num, den) = s.framegen->0;
            den <= num
        }),
        0 <= i <= s.frames,
    ensures
        ({
            let (num, den) = s.framegen->0;
            images_among(s.measuring(i)) == ratio::images_through(
                s.frames as int,
                num as int,
                den as int,
            ) - ratio::images_through(i, num as int, den as int)
        }),
    decreases s.frames - i,
{
    let (num, den) = s.framegen->0;
    let (num, den) = (num as int, den as int);
    if i < s.frames {
        law_a_run_presents_its_ratio(s, i + 1);
        ratio::law_every_interval_has_an_image(i, num, den);
        let count = s.images_of(i);
        let head = seq![Action::Render((1 + s.warmup + i) as u32)];
        lemma_generated_images(1, count);
        lemma_images_of_two(head, generated(1, count));
        lemma_images_of_two(head + generated(1, count), s.measuring(i + 1));
        assert(head.drop_last() =~= seq![]);
        assert(images_among(head.drop_last()) == 0);
    } else {
        assert(s.measuring(i).drop_last() =~= seq![]);
        assert(images_among(s.measuring(i).drop_last()) == 0);
    }
}

/// An audit every `every` frames is due after `rendered` of them.
pub open spec fn is_audit_due(every: Option<u32>, rendered: u64) -> bool {
    every matches Some(n) && n > 0 && rendered % n as u64 == 0
}

/// Whether the device is to be audited after a measured frame.
pub fn audit_due(every: Option<u32>, rendered: u64) -> (r: bool)
    ensures
        r == is_audit_due(every, rendered),
{
    match every {
        Some(n) => n > 0 && rendered % n as u64 == 0,
        None => false,
    }
}

/// A run warms up with the seeds from one on, as often as it was asked to, and then
/// starts the counters; its measured frames go on with the seeds behind those, one each
/// and in order, and it finishes once, at the end.
pub proof fn law_a_run_renders_each_frame_once_in_order(s: Session, i: int)
    requires
        s.wf(),
        0 <= i <= s.frames,
    ensures
        s.warming(0).len() == s.warmup + 1,
        forall|k: int| 0 <= k < s.warmup ==> #[trigger] s.warming(0)[k] == Action::Warm((k + 1) as u32),
        s.warming(0)[s.warmup as int] == Action::Reset,
        s.measuring(i).filter(|a: Action| a is Render) == Seq::new(
            (s.frames - i) as nat,
            |k: int| Action::Render((s.warmup + i + k + 1) as u32),
        ),
        s.measuring(i).len() > 0,
        forall|k: int|
            0 <= k < s.measuring(i).len() ==> ((#[trigger] s.measuring(i)[k]) is Finish <==> k
                == s.measuring(i).len() - 1),
        forall|k: int|
            0 <= k < s.measuring(i).len() ==> !((#[trigger] s.measuring(i)[k]) is Warm)
                && !(s.measuring(i)[k] is Reset),
    decreases s.frames - i,
{
    lemma_warming(s, 0);
    let keep = |a: Action| a is Render;
    let all = s.measuring(i);
    let want = Seq::new(
        (s.frames - i) as nat,
        |k: int| Action::Render((s.warmup + i + k + 1) as u32),
    );
    if i < s.frames {
        law_a_run_renders_each_frame_once_in_order(s, i + 1);
        let first = seq![Action::Render((1 + s.warmup + i) as u32)];
        let more = generated(1, s.images_of(i));
        let rest = s.measuring(i + 1);
        assert(all == first + more + rest);
        lemma_generated(1, s.images_of(i));
        Seq::filter_distributes_over_add(first + more, rest, keep);
        Seq::filter_distributes_over_add(first, more, keep);
        lemma_keeps_one(first[0], keep);
        assert(first =~= seq![first[0]]);
        lemma_keeps_none(more, keep);
        assert(all.filter(keep) =~= want);
        assert forall|k: int| 0 <= k < all.len() implies ((#[trigger] all[k]) is Finish <==> k
            == all.len() - 1) && !(all[k] is Warm) && !(all[k] is Reset) by {
            if k == 0 {
                assert(all[k] == first[0]);
            } else if k < 1 + more.len() {
                assert(all[k] == more[k - 1]);
            } else {
                assert(all[k] == rest[k - 1 - more.len()]);
            }
        }
    } else {
        reveal(Seq::filter);
        assert(all =~= seq![Action::Finish]);
        assert(all.drop_last() =~= Seq::empty());
        assert(all.drop_last().filter(keep) =~= Seq::empty());
        assert(all.filter(keep) =~= want);
    }
}

proof fn lemma_keeps_one(a: Action, keep: spec_fn(Action) -> bool)
    requires
        keep(a),
    ensures
        seq![a].filter(keep) == seq![a],
{
    reveal(Seq::filter);
    assert(seq![a].drop_last() =~= Seq::empty());
    assert(seq![a].drop_last().filter(keep) =~= Seq::empty());
    assert(seq![a].filter(keep) =~= seq![a]);
}

proof fn lemma_keeps_none(s: Seq<Action>, keep: spec_fn(Action) -> bool)
    requires
        forall|k: int| 0 <= k < s.len() ==> !keep(#[trigger] s[k]),
    ensures
        s.filter(keep) == Seq::<Action>::empty(),
    decreases s.len(),
{
    reveal(Seq::filter);
    if s.len() > 0 {
        let rest = s.drop_last();
        assert forall|k: int| 0 <= k < rest.len() implies !keep(#[trigger] rest[k]) by {
            assert(rest[k] == s[k]);
        }
        lemma_keeps_none(rest, keep);
        assert(!keep(s[s.len() - 1]));
    }
}

/// The images between two frames come in steps of the interval, from the first part of
/// it to the last but one.
pub proof fn law_images_are_spread_over_their_interval(count: u32, k: int)
    requires
        1 <= count,
        0 <= k < count - 1,
    ensures
        generated(1, count as int).len() == count - 1,
        generated(1, count as int)[k] == (Action::Generate { step: (k + 1) as u32, count }),
{
    lemma_generated(1, count as int);
}

proof fn lemma_generated(step: int, count: int)
    ensures
        generated(step, count).len() == if step < count {
            count - step
        } else {
            0
        },
        forall|k: int|
            0 <= k < generated(step, count).len() ==> #[trigger] generated(step, count)[k] == (
            Action::Generate { step: (step + k) as u32, count: count as u32 }),
    decreases count - step,
{
    if step < count {
        lemma_generated(step + 1, count);
    }
}

proof fn lemma_warming(s: Session, i: int)
    requires
        0 <= i <= s.warmup,
    ensures
        s.warming(i).len() == s.warmup - i + 1,
        forall|k: int|
            0 <= k < s.warmup - i ==> #[trigger] s.warming(i)[k] == Action::Warm((i + k + 1) as u32),
        s.warming(i)[s.warmup - i] == Action::Reset,
    decreases s.warmup - i,
{
    if i < s.warmup {
        lemma_warming(s, i + 1);
    }
}

/// An audit is due after every whole number of its interval, and never without one.
pub proof fn law_an_audit_is_due_after_every_interval(n: u32, k: u64, rest: u64)
    requires
        n > 0,
        k * n + rest <= u64::MAX,
        rest < n,
    ensures
        is_audit_due(Some(n), (k * n + rest) as u64) <==> rest == 0,
        !is_audit_due(None, k),
{
    vstd::arithmetic::div_mod::lemma_fundamental_div_mod_converse(
        k * n + rest,
        n as int,
        k as int,
        rest as int,
    );
}

} // verus!
