//! Frame structure: passes, what they touch, barriers, and world revisions.
//!
//! 1. **What passes exist, in what order, and what do they touch?**
//!    [`PassList`] and [`ResourceUse`], which is also where barriers come from.
//! 2. **What has changed since last frame?** [`WorldRevision`]: bumping it
//!    retires cached static shadow cascades in one step.
//! 3. **What is static?** [`GeometryClass`], which decides whether a draw is
//!    eligible for the cached static cascade at all.
use crate::error::{Code, Error};
use crate::text;
use crate::text::push_dec;
use vstd::prelude::*;

verus! {

pub const RES_TARGET_COLOR: u32 = 1;

pub const RES_TARGET_DEPTH: u32 = 2;

pub const RES_SHADOW_MAP: u32 = 3;

pub const RES_TEXTURE: u32 = 4;

pub const RES_VERTEX_BUFFER: u32 = 5;

pub const RES_INDEX_BUFFER: u32 = 6;

#[derive(Clone, Copy, PartialEq, Eq, Debug, Structural)]
pub enum Access {
    Read,
    Write,
    ReadWrite,
}

#[derive(Clone, Copy, Debug, PartialEq, Eq, Structural)]
pub struct ResourceUse {
    pub kind: u32,
    pub index: u32,
    pub access: Access,
}

impl ResourceUse {
    pub fn read(kind: u32, index: u32) -> (u: Self)
        ensures
            u == (ResourceUse { kind, index, access: Access::Read }),
    {
        ResourceUse { kind, index, access: Access::Read }
    }

    pub fn write(kind: u32, index: u32) -> (u: Self)
        ensures
            u == (ResourceUse { kind, index, access: Access::Write }),
    {
        ResourceUse { kind, index, access: Access::Write }
    }

    /// The use changes the resource.
    pub open spec fn writes(self) -> bool {
        self.access != Access::Read
    }

    /// Both use the same resource.
    pub open spec fn same_resource(self, other: ResourceUse) -> bool {
        self.kind == other.kind && self.index == other.index
    }

    /// The order of the two uses matters: same resource, and one of them writes.
    pub open spec fn conflicts(self, other: ResourceUse) -> bool {
        self.same_resource(other) && (self.writes() || other.writes())
    }
}

/// A dependency that has to be resolved before a pass runs.
#[derive(Clone, Copy, Debug, PartialEq, Eq, Structural)]
pub struct Barrier {
    pub kind: u32,
    pub index: u32,
    /// The pass that produced the last write, or `u32::MAX` when no pass has: the
    /// resource started the frame in an undefined state.
    pub after_pass: u32,
    pub to_write: bool,
}

#[derive(Clone, Copy, Debug, PartialEq, Eq, Structural)]
pub enum PassKind {
    /// Depth-only shadow cascade render.
    Shadow { cascade: u32 },
    /// Colour pass with shading and shadow lookup.
    Scene,
    /// Copies the colour target to host memory.
    Readback,
}

#[derive(Clone, Copy, Debug)]
pub struct Pass {
    pub kind: PassKind,
    pub uses: [Option<ResourceUse>; 8],
    pub use_count: u32,
}

/// The uses among the first `n` entries of a pass's table.
pub open spec fn uses_upto(uses: Seq<Option<ResourceUse>>, n: nat) -> Seq<ResourceUse>
    decreases n,
{
    if n == 0 {
        Seq::empty()
    } else {
        let before = uses_upto(uses, (n - 1) as nat);
        match uses[n - 1] {
            Some(u) => before.push(u),
            None => before,
        }
    }
}

/// How many entries of the table count.
pub open spec fn counted_uses(pass: Pass) -> nat {
    if pass.use_count < 8 {
        pass.use_count as nat
    } else {
        8
    }
}

/// What a pass uses, in order.
pub open spec fn uses_of(pass: Pass) -> Seq<ResourceUse> {
    uses_upto(pass.uses@, counted_uses(pass))
}

impl Pass {
    pub fn new(kind: PassKind) -> (p: Self)
        ensures
            p.kind == kind,
            p.use_count == 0,
            p.uses@ == Seq::new(8, |i: int| None::<ResourceUse>),
            uses_of(p) == Seq::<ResourceUse>::empty(),
    {
        let p = Pass { kind, uses: [None; 8], use_count: 0 };
        assert(p.uses@ =~= Seq::new(8, |i: int| None::<ResourceUse>));
        p
    }

    /// Adds a use, as long as the table of eight has room.
    pub fn using(self, used: ResourceUse) -> (p: Self)
        ensures
            p.kind == self.kind,
            self.use_count < 8 ==> {
                &&& p.use_count == self.use_count + 1
                &&& p.uses@ == self.uses@.update(self.use_count as int, Some(used))
                &&& uses_of(p) == uses_of(self).push(used)
            },
            self.use_count >= 8 ==> p == self,
    {
        let mut p = self;
        if p.use_count < 8 {
            p.uses[p.use_count as usize] = Some(used);
            p.use_count = p.use_count + 1;
            proof {
                lemma_uses_prefix(self.uses@, p.uses@, self.use_count as nat);
            }
        }
        p
    }

    /// The first use of `other` that this pass has to be ordered against.
    pub fn touches(&self, other: &Pass) -> (r: Option<ResourceUse>)
        ensures
            r is Some <==> exists|i: int, j: int|
                0 <= i < uses_of(*self).len() && 0 <= j < uses_of(*other).len()
                    && #[trigger] uses_of(*self)[i].conflicts(#[trigger] uses_of(*other)[j]),
            r matches Some(u) ==> exists|i: int, j: int| #[trigger]
                first_conflict(uses_of(*self), uses_of(*other), i, j) && u == uses_of(*other)[j],
    {
        let ours = self.list();
        let theirs = other.list();
        let mut i: usize = 0;
        while i < ours.len()
            invariant
                i <= ours@.len(),
                ours@ == uses_of(*self),
                theirs@ == uses_of(*other),
                forall|a: int, b: int|
                    0 <= a < i && 0 <= b < theirs@.len() ==> !(#[trigger] ours@[a]).conflicts(
                        #[trigger] theirs@[b],
                    ),
            decreases ours@.len() - i,
        {
            let a: ResourceUse = ours[i];
            let mut j: usize = 0;
            while j < theirs.len()
                invariant
                    i < ours@.len(),
                    j <= theirs@.len(),
                    a == ours@[i as int],
                    ours@ == uses_of(*self),
                    theirs@ == uses_of(*other),
                    forall|a: int, b: int|
                        0 <= a < i && 0 <= b < theirs@.len() ==> !(#[trigger] ours@[a]).conflicts(
                            #[trigger] theirs@[b],
                        ),
                    forall|b: int| 0 <= b < j ==> !a.conflicts(#[trigger] theirs@[b]),
                decreases theirs@.len() - j,
            {
                let b: ResourceUse = theirs[j];
                if a.kind == b.kind && a.index == b.index {
                    if a.access != Access::Read || b.access != Access::Read {
                        assert(ours@[i as int].conflicts(theirs@[j as int]));
                        assert(first_conflict(ours@, theirs@, i as int, j as int));
                        return Some(b);
                    }
                }
                j += 1;
            }
            i += 1;
        }
        None
    }

    /// What the pass uses, in order.
    fn list(&self) -> (r: Vec<ResourceUse>)
        ensures
            r@ == uses_of(*self),
    {
        let n: usize = if self.use_count < 8 {
            self.use_count as usize
        } else {
            8
        };
        let mut r: Vec<ResourceUse> = Vec::new();
        let mut i: usize = 0;
        while i < n
            invariant
                i <= n <= 8,
                r@ == uses_upto(self.uses@, i as nat),
            decreases n - i,
        {
            if let Some(u) = self.uses[i] {
                r.push(u);
            }
            i += 1;
        }
        r
    }
}

/// Use `j` of `theirs` is the first that use `i` of `ours`, itself the first with
/// any, conflicts with.
pub open spec fn first_conflict(
    ours: Seq<ResourceUse>,
    theirs: Seq<ResourceUse>,
    i: int,
    j: int,
) -> bool {
    &&& 0 <= i < ours.len()
    &&& 0 <= j < theirs.len()
    &&& ours[i].conflicts(theirs[j])
    &&& forall|b: int| 0 <= b < j ==> !ours[i].conflicts(#[trigger] theirs[b])
    &&& forall|a: int, b: int|
        0 <= a < i && 0 <= b < theirs.len() ==> !(#[trigger] ours[a]).conflicts(
            #[trigger] theirs[b],
        )
}

proof fn lemma_uses_prefix(a: Seq<Option<ResourceUse>>, b: Seq<Option<ResourceUse>>, n: nat)
    requires
        forall|i: int| 0 <= i < n ==> a[i] == b[i],
    ensures
        uses_upto(a, n) == uses_upto(b, n),
    decreases n,
{
    if n > 0 {
        lemma_uses_prefix(a, b, (n - 1) as nat);
    }
}

/// One use of one pass.
pub struct Use {
    pub pass: u32,
    pub used: ResourceUse,
}

/// The uses of the first `n` of a pass's uses, behind a history.
pub open spec fn with_uses(history: Seq<Use>, pass: u32, uses: Seq<ResourceUse>) -> Seq<Use> {
    history + uses.map_values(|used: ResourceUse| Use { pass, used })
}

/// Everything the passes use, in order.
pub open spec fn history_of(passes: Seq<Pass>) -> Seq<Use>
    decreases passes.len(),
{
    if passes.len() == 0 {
        Seq::empty()
    } else {
        with_uses(
            history_of(passes.drop_last()),
            (passes.len() - 1) as u32,
            uses_of(passes.last()),
        )
    }
}

/// A use of the resource.
pub open spec fn is_of(u: Use, kind: u32, index: u32) -> bool {
    u.used.kind == kind && u.used.index == index
}

/// The last pass other than `pass` that used the resource.
pub open spec fn user_before(history: Seq<Use>, kind: u32, index: u32, pass: u32) -> Option<u32>
    decreases history.len(),
{
    if history.len() == 0 {
        None
    } else {
        let u = history.last();
        if is_of(u, kind, index) && u.pass != pass {
            Some(u.pass)
        } else {
            user_before(history.drop_last(), kind, index, pass)
        }
    }
}

/// The last pass other than `pass` that wrote the resource.
pub open spec fn writer_before(history: Seq<Use>, kind: u32, index: u32, pass: u32) -> Option<u32>
    decreases history.len(),
{
    if history.len() == 0 {
        None
    } else {
        let u = history.last();
        if is_of(u, kind, index) && u.pass != pass && u.used.writes() {
            Some(u.pass)
        } else {
            writer_before(history.drop_last(), kind, index, pass)
        }
    }
}

/// The pass has used the resource itself.
pub open spec fn used_by(history: Seq<Use>, kind: u32, index: u32, pass: u32) -> bool {
    exists|i: int|
        0 <= i < history.len() && is_of(#[trigger] history[i], kind, index) && history[i].pass
            == pass
}

/// The pass has written the resource itself.
pub open spec fn written_by(history: Seq<Use>, kind: u32, index: u32, pass: u32) -> bool {
    exists|i: int|
        0 <= i < history.len() && is_of(#[trigger] history[i], kind, index) && history[i].pass
            == pass && history[i].used.writes()
}

/// What the last writer left has been used by no pass since.
pub open spec fn unread(history: Seq<Use>, kind: u32, index: u32, pass: u32) -> bool {
    &&& writer_before(history, kind, index, pass) is Some
    &&& writer_before(history, kind, index, pass) == user_before(history, kind, index, pass)
}

/// A use has to wait for other passes. The hazards are not symmetric: two reads in
/// a row need nothing, a read after a write and a write after a read both need a
/// barrier. One barrier orders the whole pass, so what it guards already is not
/// guarded again.
pub open spec fn must_wait(history: Seq<Use>, u: Use) -> bool {
    let (kind, index) = (u.used.kind, u.used.index);
    if u.used.writes() {
        &&& user_before(history, kind, index, u.pass) is Some
        &&& !written_by(history, kind, index, u.pass)
        &&& !(used_by(history, kind, index, u.pass) && unread(history, kind, index, u.pass))
    } else {
        unread(history, kind, index, u.pass) && !used_by(history, kind, index, u.pass)
    }
}

/// The barrier a use needs after a history.
pub open spec fn barrier_for(history: Seq<Use>, u: Use) -> Option<Barrier> {
    if must_wait(history, u) {
        Some(
            Barrier {
                kind: u.used.kind,
                index: u.used.index,
                after_pass: match writer_before(history, u.used.kind, u.used.index, u.pass) {
                    Some(pass) => pass,
                    None => u32::MAX,
                },
                to_write: u.used.writes(),
            },
        )
    } else {
        None
    }
}

/// The barriers of a history.
pub open spec fn barriers_of(history: Seq<Use>) -> Seq<Barrier>
    decreases history.len(),
{
    if history.len() == 0 {
        Seq::empty()
    } else {
        let before = barriers_of(history.drop_last());
        match barrier_for(history.drop_last(), history.last()) {
            Some(b) => before.push(b),
            None => before,
        }
    }
}

/// The uses of passes bear the passes' numbers.
proof fn lemma_history_passes(passes: Seq<Pass>)
    requires
        passes.len() <= u32::MAX,
    ensures
        forall|k: int|
            0 <= k < history_of(passes).len() ==> (#[trigger] history_of(passes)[k]).pass
                < passes.len(),
    decreases passes.len(),
{
    if passes.len() > 0 {
        lemma_history_passes(passes.drop_last());
    }
}

/// The passes are in order.
pub open spec fn in_order(history: Seq<Use>) -> bool {
    forall|i: int, j: int|
        0 <= i <= j < history.len() ==> (#[trigger] history[i]).pass <= (#[trigger] history[j]).pass
}

/// What is remembered of a resource: the last pass to use it, and what the passes
/// before that one did.
#[derive(Clone, Copy)]
struct LastUse {
    kind: u32,
    index: u32,
    pass: u32,
    wrote: bool,
    user: Option<u32>,
    writer: Option<u32>,
}

pub struct PassList {
    passes: Vec<Pass>,
    barriers: Vec<Barrier>,
    last_use: Vec<LastUse>,
}

impl LastUse {
    spec fn same(self, other: LastUse) -> bool {
        self.kind == other.kind && self.index == other.index
    }

    spec fn is_for(self, u: Use) -> bool {
        is_of(u, self.kind, self.index)
    }

    /// What a pass that is not before the last one has to know.
    fn recall(self, pass: u32, Ghost(history): Ghost<Seq<Use>>) -> (r: LastUse)
        requires
            self.remembers(history),
            in_order(history),
            forall|k: int| 0 <= k < history.len() ==> (#[trigger] history[k]).pass <= pass,
        ensures
            r.same(self),
            r.pass == pass,
            r.wrote == written_by(history, self.kind, self.index, pass),
            r.user == user_before(history, self.kind, self.index, pass),
            r.writer == writer_before(history, self.kind, self.index, pass),
            (self.pass == pass) == used_by(history, self.kind, self.index, pass),
    {
        proof {
            let k = choose|k: int|
                0 <= k < history.len() && is_of(#[trigger] history[k], self.kind, self.index)
                    && history[k].pass == self.pass;
            assert(history[k].pass <= pass);
            if self.pass < pass {
                self.lemma_before(history, pass);
            }
        }
        if self.pass == pass {
            self
        } else {
            LastUse {
                kind: self.kind,
                index: self.index,
                pass,
                wrote: false,
                user: Some(self.pass),
                writer: if self.wrote {
                    Some(self.pass)
                } else {
                    self.writer
                },
            }
        }
    }

    spec fn remembers(self, history: Seq<Use>) -> bool {
        &&& used_by(history, self.kind, self.index, self.pass)
        &&& forall|i: int|
            0 <= i < history.len() && is_of(#[trigger] history[i], self.kind, self.index)
                ==> history[i].pass <= self.pass
        &&& self.wrote == written_by(history, self.kind, self.index, self.pass)
        &&& self.user == user_before(history, self.kind, self.index, self.pass)
        &&& self.writer == writer_before(history, self.kind, self.index, self.pass)
    }

    /// The same memory, seen from a pass that has not used the resource yet.
    proof fn lemma_before(self, history: Seq<Use>, pass: u32)
        requires
            self.remembers(history),
            in_order(history),
            self.pass < pass,
        ensures
            user_before(history, self.kind, self.index, pass) == Some(self.pass),
            writer_before(history, self.kind, self.index, pass) == if self.wrote {
                Some(self.pass)
            } else {
                self.writer
            },
            !used_by(history, self.kind, self.index, pass),
            !written_by(history, self.kind, self.index, pass),
    {
        lemma_last_user(history, self.kind, self.index, self.pass, pass);
        lemma_last_writer(history, self.kind, self.index, self.pass, pass);
    }
}

proof fn lemma_last_user(history: Seq<Use>, kind: u32, index: u32, last: u32, pass: u32)
    requires
        used_by(history, kind, index, last),
        forall|i: int|
            0 <= i < history.len() && is_of(#[trigger] history[i], kind, index)
                ==> history[i].pass <= last,
        in_order(history),
        last < pass,
    ensures
        user_before(history, kind, index, pass) == Some(last),
    decreases history.len(),
{
    let rest = history.drop_last();
    let n = history.len() - 1;
    let k = choose|i: int|
        0 <= i < history.len() && is_of(#[trigger] history[i], kind, index) && history[i].pass
            == last;
    assert(history[n] == history.last());
    if is_of(history[n], kind, index) {
        assert(history[k].pass <= history[n].pass);
    } else {
        assert(rest[k] == history[k]);
        assert forall|i: int| 0 <= i < rest.len() && is_of(#[trigger] rest[i], kind, index) implies rest[i].pass
            <= last by {
            assert(rest[i] == history[i]);
        }
        lemma_in_order(history, n);
        lemma_last_user(rest, kind, index, last, pass);
    }
}

proof fn lemma_in_order(history: Seq<Use>, n: int)
    requires
        in_order(history),
        0 <= n <= history.len(),
    ensures
        in_order(history.take(n)),
        n == history.len() - 1 ==> in_order(history.drop_last()),
{
    assert forall|i: int, j: int| 0 <= i <= j < n implies (#[trigger] history.take(n)[i]).pass <= (
    #[trigger] history.take(n)[j]).pass by {
        assert(history[i].pass <= history[j].pass);
    }
    if n == history.len() - 1 {
        assert(history.drop_last() =~= history.take(n));
    }
}

proof fn lemma_last_writer(history: Seq<Use>, kind: u32, index: u32, last: u32, pass: u32)
    requires
        forall|i: int|
            0 <= i < history.len() && is_of(#[trigger] history[i], kind, index)
                ==> history[i].pass <= last,
        in_order(history),
        last < pass,
    ensures
        writer_before(history, kind, index, pass) == if written_by(history, kind, index, last) {
            Some(last)
        } else {
            writer_before(history, kind, index, last)
        },
    decreases history.len(),
{
    if history.len() > 0 {
        let rest = history.drop_last();
        let n = history.len() - 1;
        let u = history.last();
        assert(history[n] == u);
        assert forall|i: int| 0 <= i < rest.len() && is_of(#[trigger] rest[i], kind, index) implies rest[i].pass
            <= last by {
            assert(rest[i] == history[i]);
        }
        lemma_in_order(history, n);
        lemma_last_writer(rest, kind, index, last, pass);
        if written_by(rest, kind, index, last) {
            let k = choose|i: int|
                0 <= i < rest.len() && is_of(#[trigger] rest[i], kind, index) && rest[i].pass == last
                    && rest[i].used.writes();
            assert(history[k] == rest[k]);
            assert(history[k].pass <= history[n].pass);
        }
        if written_by(history, kind, index, last) && !written_by(rest, kind, index, last) {
            let k = choose|i: int|
                0 <= i < history.len() && is_of(#[trigger] history[i], kind, index)
                    && history[i].pass == last && history[i].used.writes();
            if k < n {
                assert(rest[k] == history[k]);
            }
        }
    }
}

/// One more use of a resource by a pass.
proof fn lemma_one_more(history: Seq<Use>, u: Use, kind: u32, index: u32, pass: u32)
    ensures
        ({
            let next = history.push(u);
            let here = is_of(u, kind, index);
            &&& used_by(next, kind, index, pass) == (used_by(history, kind, index, pass) || (here
                && u.pass == pass))
            &&& written_by(next, kind, index, pass) == (written_by(history, kind, index, pass) || (
            here && u.pass == pass && u.used.writes()))
            &&& user_before(next, kind, index, pass) == if here && u.pass != pass {
                Some(u.pass)
            } else {
                user_before(history, kind, index, pass)
            }
            &&& writer_before(next, kind, index, pass) == if here && u.pass != pass
                && u.used.writes() {
                Some(u.pass)
            } else {
                writer_before(history, kind, index, pass)
            }
        }),
{
    let next = history.push(u);
    assert(next.drop_last() =~= history);
    assert(next[history.len() as int] == u);
    assert forall|i: int| 0 <= i < history.len() implies #[trigger] next[i] == history[i] by {}
    if used_by(history, kind, index, pass) {
        let k = choose|i: int|
            0 <= i < history.len() && is_of(#[trigger] history[i], kind, index) && history[i].pass
                == pass;
        assert(is_of(next[k], kind, index));
    }
    if written_by(history, kind, index, pass) {
        let k = choose|i: int|
            0 <= i < history.len() && is_of(#[trigger] history[i], kind, index) && history[i].pass
                == pass && history[i].used.writes();
        assert(is_of(next[k], kind, index));
    }
}

/// One memory for each resource that was used.
#[verifier::opaque]
spec fn covers(slots: Seq<LastUse>, history: Seq<Use>) -> bool {
    &&& forall|k: int| 0 <= k < slots.len() ==> (#[trigger] slots[k]).remembers(history)
    &&& forall|a: int, b: int|
        0 <= a < b < slots.len() ==> !(#[trigger] slots[a]).same(#[trigger] slots[b])
    &&& forall|i: int|
        0 <= i < history.len() ==> exists|k: int|
            0 <= k < slots.len() && (#[trigger] slots[k]).is_for(#[trigger] history[i])
}

proof fn lemma_covered(slots: Seq<LastUse>, history: Seq<Use>, k: int)
    requires
        covers(slots, history),
        0 <= k < slots.len(),
    ensures
        slots[k].remembers(history),
{
    reveal(covers);
}

/// A resource with no memory was used by nobody.
proof fn lemma_not_covered(
    slots: Seq<LastUse>,
    history: Seq<Use>,
    kind: u32,
    index: u32,
    pass: u32,
)
    requires
        covers(slots, history),
        forall|k: int|
            0 <= k < slots.len() ==> !((#[trigger] slots[k]).kind == kind && slots[k].index
                == index),
    ensures
        !used_by(history, kind, index, pass),
        !written_by(history, kind, index, pass),
        user_before(history, kind, index, pass) is None,
        writer_before(history, kind, index, pass) is None,
        forall|i: int| 0 <= i < history.len() ==> !is_of(#[trigger] history[i], kind, index),
{
    assert forall|i: int| 0 <= i < history.len() implies !is_of(
        #[trigger] history[i],
        kind,
        index,
    ) by {
        reveal(covers);
        let k = choose|k: int| 0 <= k < slots.len() && (#[trigger] slots[k]).is_for(history[i]);
        assert(!(slots[k].kind == kind && slots[k].index == index));
    }
    lemma_untouched(history, kind, index, pass);
}

/// The memories after one more use: that of the resource is another, or a new one.
proof fn lemma_covers(
    before: Seq<LastUse>,
    after: Seq<LastUse>,
    history: Seq<Use>,
    u: Use,
    i: int,
    slot: LastUse,
)
    requires
        covers(before, history),
        0 <= i <= before.len(),
        slot.is_for(u),
        slot.remembers(history.push(u)),
        i < before.len() ==> before[i].same(slot) && after == before.update(i, slot),
        i == before.len() ==> after == before.push(slot) && forall|k: int|
            0 <= k < before.len() ==> !(#[trigger] before[k]).same(slot),
    ensures
        covers(after, history.push(u)),
{
    reveal(covers);
    let next = history.push(u);
    assert(after[i] == slot);
    assert forall|k: int| 0 <= k < after.len() implies (#[trigger] after[k]).remembers(next) by {
        if k != i {
            assert(after[k] == before[k]);
            let other = before[k];
            assert(!other.is_for(u)) by {
                if i < before.len() {
                    if k < i {
                        assert(!before[k].same(before[i]));
                    } else {
                        assert(!before[i].same(before[k]));
                    }
                }
            }
            assert(other.remembers(history));
            lemma_one_more(history, u, other.kind, other.index, other.pass);
        }
    }
    assert forall|a: int, b: int| 0 <= a < b < after.len() implies !(#[trigger] after[a]).same(
        #[trigger] after[b],
    ) by {
        if i < before.len() {
            assert(!before[a].same(before[b]));
        } else if b < before.len() {
            assert(!before[a].same(before[b]));
        }
    }
    assert forall|n: int| 0 <= n < next.len() implies exists|k: int|
        0 <= k < after.len() && (#[trigger] after[k]).is_for(#[trigger] next[n]) by {
        if n < history.len() {
            assert(next[n] == history[n]);
            let k = choose|k: int|
                0 <= k < before.len() && (#[trigger] before[k]).is_for(history[n]);
            assert(after[k].is_for(next[n]));
        } else {
            assert(after[i].is_for(next[n]));
        }
    }
}

/// A resource no use is of was used by nobody.
proof fn lemma_untouched(history: Seq<Use>, kind: u32, index: u32, pass: u32)
    requires
        forall|i: int| 0 <= i < history.len() ==> !is_of(#[trigger] history[i], kind, index),
    ensures
        user_before(history, kind, index, pass) is None,
        writer_before(history, kind, index, pass) is None,
    decreases history.len(),
{
    if history.len() > 0 {
        let rest = history.drop_last();
        assert(history[history.len() - 1] == history.last());
        assert forall|i: int| 0 <= i < rest.len() implies !is_of(#[trigger] rest[i], kind, index) by {
            assert(rest[i] == history[i]);
        }
        lemma_untouched(rest, kind, index, pass);
    }
}

impl PassList {
    pub closed spec fn list(&self) -> Seq<Pass> {
        self.passes@
    }

    pub closed spec fn hazards(&self) -> Seq<Barrier> {
        self.barriers@
    }

    spec fn tracks(&self, history: Seq<Use>) -> bool {
        &&& self.barriers@ == barriers_of(history)
        &&& in_order(history)
        &&& covers(self.last_use@, history)
    }

    /// The barriers are those of the passes.
    pub closed spec fn wf(&self) -> bool {
        self.tracks(history_of(self.passes@))
    }

    /// The barriers of a list are those that its passes call for, and no others.
    pub proof fn law_the_barriers_are_those_of_the_passes(&self)
        requires
            self.wf(),
        ensures
            self.hazards() == barriers_of(history_of(self.list())),
    {
    }

    pub fn new() -> (l: Self)
        ensures
            l.wf(),
            l.list() == Seq::<Pass>::empty(),
            l.hazards() == Seq::<Barrier>::empty(),
    {
        reveal(covers);
        PassList { passes: Vec::new(), barriers: Vec::new(), last_use: Vec::new() }
    }

    /// Forgets the passes, and everything they touched.
    pub fn clear(&mut self)
        ensures
            final(self).wf(),
            final(self).list() == Seq::<Pass>::empty(),
            final(self).hazards() == Seq::<Barrier>::empty(),
    {
        self.passes.clear();
        self.barriers.clear();
        self.last_use.clear();
        reveal(covers);
    }

    /// Appends a pass, and the barriers that what it uses calls for.
    pub fn push(&mut self, pass: Pass)
        requires
            old(self).wf(),
            old(self).list().len() <= u32::MAX,
        ensures
            final(self).wf(),
            final(self).list() == old(self).list().push(pass),
            final(self).hazards() == barriers_of(history_of(old(self).list().push(pass))),
            all_named_once(old(self).list()) && names_each_once(pass) ==> final(self).hazards()
                == old(self).hazards() + hazards_of(
                history_of(old(self).list()),
                uses_of(pass),
            ),
    {
        let pass_index: u32 = self.passes.len() as u32;
        let uses = pass.list();
        let ghost base = history_of(self.passes@);
        let mut i: usize = 0;
        proof {
            lemma_history_passes(self.passes@);
            assert(uses@.take(0) =~= Seq::empty());
            assert(with_uses(base, pass_index, uses@.take(0)) =~= base);
        }
        while i < uses.len()
            invariant
                i <= uses@.len(),
                self.passes@ == old(self).passes@,
                base == history_of(old(self).passes@),
                forall|k: int| 0 <= k < base.len() ==> (#[trigger] base[k]).pass < pass_index,
                self.tracks(with_uses(base, pass_index, uses@.take(i as int))),
            decreases uses@.len() - i,
        {
            let ghost seen = with_uses(base, pass_index, uses@.take(i as int));
            let ghost u = Use { pass: pass_index, used: uses@[i as int] };
            proof {
                let next = with_uses(base, pass_index, uses@.take(i + 1));
                assert(next =~= seen.push(u));
                assert forall|k: int| 0 <= k < seen.len() implies (#[trigger] seen[k]).pass
                    <= pass_index by {
                    if k < base.len() {
                        assert(seen[k] == base[k]);
                    }
                }
            }
            self.note(pass_index, uses[i], Ghost(seen));
            i += 1;
        }
        assert(uses@.take(i as int) =~= uses@);
        self.passes.push(pass);
        assert(self.passes@.drop_last() =~= old(self).passes@);
        proof {
            if all_named_once(old(self).list()) && names_each_once(pass) {
                law_a_pass_adds_a_barrier_for_each_hazard(old(self).list(), pass);
            }
        }
    }

    /// Tracks one use.
    fn note(&mut self, pass_index: u32, used: ResourceUse, Ghost(history): Ghost<Seq<Use>>)
        requires
            old(self).tracks(history),
            forall|k: int| 0 <= k < history.len() ==> (#[trigger] history[k]).pass <= pass_index,
        ensures
            final(self).passes@ == old(self).passes@,
            final(self).tracks(history.push(Use { pass: pass_index, used })),
    {
        let writes = used.access != Access::Read;
        let ghost u = Use { pass: pass_index, used };
        let ghost before = self.last_use@;
        let i: usize = self.find(used.kind, used.index);
        let found = i < self.last_use.len();
        let mut own = false;
        let mut known = LastUse {
            kind: used.kind,
            index: used.index,
            pass: pass_index,
            wrote: false,
            user: None,
            writer: None,
        };
        if found {
            let last: LastUse = self.last_use[i];
            proof {
                lemma_covered(before, history, i as int);
            }
            known = last.recall(pass_index, Ghost(history));
            own = last.pass == pass_index;
        } else {
            proof {
                lemma_not_covered(before, history, used.kind, used.index, pass_index);
            }
        }
        assert(own == used_by(history, used.kind, used.index, pass_index));
        let unread = match (known.writer, known.user) {
            (Some(writer), Some(user)) => writer == user,
            _ => false,
        };
        let wait = if writes {
            known.user.is_some() && !known.wrote && !(own && unread)
        } else {
            unread && !own
        };
        assert(wait == must_wait(history, u));
        assert(history.push(u).drop_last() =~= history);
        if wait {
            let after_pass: u32 = match known.writer {
                Some(pass) => pass,
                None => u32::MAX,
            };
            self.barriers.push(
                Barrier { kind: used.kind, index: used.index, after_pass, to_write: writes },
            );
        }
        known.wrote = known.wrote || writes;
        proof {
            lemma_one_more(history, u, used.kind, used.index, pass_index);
            assert(known.remembers(history.push(u)));
        }
        if found {
            self.last_use.set(i, known);
        } else {
            self.last_use.push(known);
        }
        proof {
            lemma_covers(before, self.last_use@, history, u, i as int, known);
        }
    }

    /// Where the memory of a resource stands, or how many there are.
    fn find(&self, kind: u32, index: u32) -> (i: usize)
        ensures
            i <= self.last_use@.len(),
            i < self.last_use@.len() ==> self.last_use@[i as int].kind == kind
                && self.last_use@[i as int].index == index,
            i == self.last_use@.len() ==> forall|k: int|
                0 <= k < i ==> !((#[trigger] self.last_use@[k]).kind == kind
                    && self.last_use@[k].index == index),
    {
        let mut i: usize = 0;
        while i < self.last_use.len()
            invariant
                i <= self.last_use@.len(),
                forall|k: int|
                    0 <= k < i ==> !((#[trigger] self.last_use@[k]).kind == kind
                        && self.last_use@[k].index == index),
            decreases self.last_use@.len() - i,
        {
            if self.last_use[i].kind == kind && self.last_use[i].index == index {
                return i;
            }
            i += 1;
        }
        i
    }

    pub fn passes(&self) -> (s: &[Pass])
        ensures
            s@ == self.list(),
    {
        self.passes.as_slice()
    }

    pub fn barriers(&self) -> (s: &[Barrier])
        ensures
            s@ == self.hazards(),
    {
        self.barriers.as_slice()
    }

    pub fn len(&self) -> (n: usize)
        ensures
            n == self.list().len(),
    {
        self.passes.len()
    }

    pub fn is_empty(&self) -> (r: bool)
        ensures
            r == (self.list().len() == 0),
    {
        self.passes.len() == 0
    }

    /// A pass order that must hold for correctness, checked rather than assumed:
    /// the shadow pass for a cascade has to come before the pass that samples it.
    /// The first scene pass that samples a map too early is named.
    pub fn validate(&self) -> (r: Result<(), Error>)
        ensures
            r is Err <==> exists|i: int| unshadowed(self.list(), i),
            r matches Err(e) ==> exists|i: int| #[trigger]
                unshadowed(self.list(), i) && (forall|k: int|
                    0 <= k < i ==> !#[trigger] unshadowed(self.list(), k)) && e.says(
                    Code::NotReady,
                    "scene pass "@ + text::dec(i as nat)
                        + " samples shadow maps but no shadow pass precedes it"@,
                ),
    {
        let mut drawn: Vec<u32> = Vec::new();
        let mut i: usize = 0;
        while i < self.passes.len()
            invariant
                i <= self.passes@.len(),
                forall|c: u32| #[trigger]
                    drawn@.contains(c) <==> cascade_drawn(self.passes@, i as int, c),
                forall|k: int| 0 <= k < i ==> !#[trigger] unshadowed(self.list(), k),
            decreases self.passes@.len() - i,
        {
            let pass: &Pass = &self.passes[i];
            let ghost before = drawn@;
            match pass.kind {
                PassKind::Shadow { cascade } => {
                    drawn.push(cascade);
                    proof {
                        assert(drawn@[before.len() as int] == cascade);
                        assert forall|c: u32| #[trigger]
                            drawn@.contains(c) == (before.contains(c) || c == cascade) by {
                            if before.contains(c) {
                                let k = choose|k: int| 0 <= k < before.len() && before[k] == c;
                                assert(drawn@[k] == c);
                            }
                            if drawn@.contains(c) && c != cascade {
                                let k = choose|k: int| 0 <= k < drawn@.len() && drawn@[k] == c;
                                assert(before[k] == c);
                            }
                        }
                    }
                },
                PassKind::Scene => {
                    if pass.samples_without(&drawn) {
                        let mut message = String::from_str("scene pass ");
                        push_dec(&mut message, i as u128);
                        message.append(" samples shadow maps but no shadow pass precedes it");
                        proof {
                            let uses = uses_of(self.passes@[i as int]);
                            let j = choose|j: int|
                                0 <= j < uses.len() && samples(#[trigger] uses[j])
                                    && !drawn@.contains(uses[j].index);
                            assert(samples(uses_of(self.list()[i as int])[j]));
                            assert(unshadowed(self.list(), i as int));
                        }
                        return Err(Error { code: Code::NotReady, message });
                    }
                },
                PassKind::Readback => {},
            }
            proof {
                assert forall|c: u32| #[trigger] drawn@.contains(c) <==> cascade_drawn(
                    self.passes@,
                    i + 1,
                    c,
                ) by {
                    lemma_cascade_drawn(self.passes@, i as int, c);
                }
            }
            i += 1;
        }
        Ok(())
    }
}

/// The use samples a shadow map.
pub open spec fn samples(u: ResourceUse) -> bool {
    u.kind == RES_SHADOW_MAP && u.access == Access::Read
}

/// One of the first `n` passes draws the cascade.
pub open spec fn cascade_drawn(passes: Seq<Pass>, n: int, cascade: u32) -> bool {
    exists|k: int| 0 <= k < n && (#[trigger] passes[k]).kind == PassKind::Shadow { cascade }
}

/// Pass `i` samples the map of a cascade that no pass before it draws.
pub open spec fn unshadowed(passes: Seq<Pass>, i: int) -> bool {
    &&& 0 <= i < passes.len()
    &&& passes[i].kind is Scene
    &&& exists|j: int|
        0 <= j < uses_of(passes[i]).len() && samples(#[trigger] uses_of(passes[i])[j])
            && !cascade_drawn(passes, i, uses_of(passes[i])[j].index)
}

proof fn lemma_cascade_drawn(passes: Seq<Pass>, n: int, cascade: u32)
    requires
        0 <= n < passes.len(),
    ensures
        cascade_drawn(passes, n + 1, cascade) == (cascade_drawn(passes, n, cascade)
            || passes[n].kind == PassKind::Shadow { cascade }),
{
    if cascade_drawn(passes, n, cascade) {
        let k = choose|k: int|
            0 <= k < n && (#[trigger] passes[k]).kind == PassKind::Shadow { cascade };
        assert(passes[k].kind == PassKind::Shadow { cascade });
    }
}

impl Pass {
    /// The pass samples the map of a cascade that is not among the drawn ones.
    fn samples_without(&self, drawn: &Vec<u32>) -> (r: bool)
        ensures
            r == exists|j: int|
                0 <= j < uses_of(*self).len() && samples(#[trigger] uses_of(*self)[j])
                    && !drawn@.contains(uses_of(*self)[j].index),
    {
        let uses = self.list();
        let mut j: usize = 0;
        while j < uses.len()
            invariant
                j <= uses@.len(),
                uses@ == uses_of(*self),
                forall|k: int|
                    0 <= k < j && samples(#[trigger] uses@[k]) ==> drawn@.contains(uses@[k].index),
            decreases uses@.len() - j,
        {
            let u: ResourceUse = uses[j];
            if u.kind == RES_SHADOW_MAP && u.access == Access::Read && !is_among(drawn, u.index) {
                assert(samples(uses_of(*self)[j as int]));
                return true;
            }
            j += 1;
        }
        false
    }
}

fn is_among(drawn: &Vec<u32>, cascade: u32) -> (r: bool)
    ensures
        r == drawn@.contains(cascade),
{
    let mut i: usize = 0;
    while i < drawn.len()
        invariant
            i <= drawn@.len(),
            forall|k: int| 0 <= k < i ==> #[trigger] drawn@[k] != cascade,
        decreases drawn@.len() - i,
    {
        if drawn[i] == cascade {
            assert(drawn@[i as int] == cascade);
            return true;
        }
        i += 1;
    }
    false
}

/// The first use of a resource needs no barrier.
pub proof fn law_a_first_use_needs_no_barrier(history: Seq<Use>, u: Use)
    requires
        forall|i: int|
            0 <= i < history.len() ==> !(#[trigger] history[i]).used.same_resource(u.used),
    ensures
        barrier_for(history, u) is None,
{
    lemma_untouched(history, u.used.kind, u.used.index, u.pass);
}

/// Two reads in a row need nothing: a read behind another pass's read, when that
/// pass has not written the resource, gets no barrier.
pub proof fn law_reads_in_a_row_need_no_barrier(history: Seq<Use>, u: Use)
    requires
        !u.used.writes(),
        history.len() > 0,
        history.last().used.same_resource(u.used),
        !written_by(history, u.used.kind, u.used.index, history.last().pass),
    ensures
        barrier_for(history, u) is None,
{
    let last = history.last();
    let (kind, index) = (u.used.kind, u.used.index);
    assert(history[history.len() - 1] == last);
    assert(is_of(last, kind, index));
    if last.pass != u.pass {
        lemma_writer_wrote(history, kind, index, u.pass);
    }
}

/// A pass that is named as the last writer has written.
proof fn lemma_writer_wrote(history: Seq<Use>, kind: u32, index: u32, pass: u32)
    ensures
        writer_before(history, kind, index, pass) matches Some(w) ==> w != pass && written_by(
            history,
            kind,
            index,
            w,
        ),
    decreases history.len(),
{
    if history.len() > 0 {
        let rest = history.drop_last();
        assert(history[history.len() - 1] == history.last());
        lemma_writer_wrote(rest, kind, index, pass);
        if let Some(w) = writer_before(rest, kind, index, pass) {
            let k = choose|i: int|
                0 <= i < rest.len() && is_of(#[trigger] rest[i], kind, index) && rest[i].pass == w
                    && rest[i].used.writes();
            assert(history[k] == rest[k]);
        }
    }
}

/// A read after a write needs a barrier, which names the writer: use `i` is another
/// pass's write, and only that pass has used the resource since.
pub proof fn law_a_read_waits_for_the_write(history: Seq<Use>, u: Use, i: int)
    requires
        !u.used.writes(),
        0 <= i < history.len(),
        history[i].used.same_resource(u.used),
        history[i].used.writes(),
        history[i].pass != u.pass,
        !used_by(history, u.used.kind, u.used.index, u.pass),
        forall|k: int|
            i < k < history.len() && (#[trigger] history[k]).used.same_resource(u.used)
                ==> history[k].pass == history[i].pass,
    ensures
        barrier_for(history, u) == Some(
            Barrier {
                kind: u.used.kind,
                index: u.used.index,
                after_pass: history[i].pass,
                to_write: false,
            },
        ),
{
    lemma_only_since(history, u.used.kind, u.used.index, u.pass, i);
}

proof fn lemma_only_since(history: Seq<Use>, kind: u32, index: u32, pass: u32, i: int)
    requires
        0 <= i < history.len(),
        is_of(history[i], kind, index),
        history[i].used.writes(),
        history[i].pass != pass,
        forall|k: int|
            i < k < history.len() && is_of(#[trigger] history[k], kind, index) ==> history[k].pass
                == history[i].pass,
    ensures
        user_before(history, kind, index, pass) == Some(history[i].pass),
        writer_before(history, kind, index, pass) == Some(history[i].pass),
    decreases history.len(),
{
    let n = history.len() - 1;
    assert(history[n] == history.last());
    if i < n {
        let rest = history.drop_last();
        assert forall|k: int| i < k < rest.len() && is_of(#[trigger] rest[k], kind, index) implies rest[k].pass
            == rest[i].pass by {
            assert(rest[k] == history[k]);
        }
        lemma_only_since(rest, kind, index, pass, i);
    }
}

/// A write after any other pass's use needs a barrier: a pass that writes first
/// what another has touched waits, and the barrier names the last writer.
pub proof fn law_a_write_waits_for_every_use(history: Seq<Use>, u: Use, i: int)
    requires
        u.used.writes(),
        0 <= i < history.len(),
        history[i].used.same_resource(u.used),
        history[i].pass != u.pass,
        !used_by(history, u.used.kind, u.used.index, u.pass),
    ensures
        barrier_for(history, u) == Some(
            Barrier {
                kind: u.used.kind,
                index: u.used.index,
                after_pass: match writer_before(history, u.used.kind, u.used.index, u.pass) {
                    Some(pass) => pass,
                    None => u32::MAX,
                },
                to_write: true,
            },
        ),
{
    lemma_someone_used(history, u.used.kind, u.used.index, u.pass, i);
    if written_by(history, u.used.kind, u.used.index, u.pass) {
        let k = choose|k: int|
            0 <= k < history.len() && is_of(#[trigger] history[k], u.used.kind, u.used.index)
                && history[k].pass == u.pass && history[k].used.writes();
        assert(used_by(history, u.used.kind, u.used.index, u.pass));
    }
}

proof fn lemma_someone_used(history: Seq<Use>, kind: u32, index: u32, pass: u32, i: int)
    requires
        0 <= i < history.len(),
        is_of(history[i], kind, index),
        history[i].pass != pass,
    ensures
        user_before(history, kind, index, pass) is Some,
    decreases history.len(),
{
    if i < history.len() - 1 {
        assert(history.drop_last()[i] == history[i]);
        lemma_someone_used(history.drop_last(), kind, index, pass, i);
    }
}

/// No hazard of a writing pass is hidden by what the pass did before: if use `j`
/// writes what an earlier pass touched, that pass has its barrier, at use `j` or
/// at an earlier use of the resource by the same pass.
pub proof fn law_a_writing_pass_is_ordered(history: Seq<Use>, i: int, j: int)
    requires
        in_order(history),
        0 <= i < j < history.len(),
        history[i].used.same_resource(history[j].used),
        history[i].pass != history[j].pass,
        history[j].used.writes(),
    ensures
        exists|k: int|
            i < k <= j && history[k].pass == history[j].pass && history[k].used.same_resource(
                history[j].used,
            ) && #[trigger] barrier_for(history.take(k), history[k]) is Some,
    decreases j,
{
    let u = history[j];
    let (kind, index) = (u.used.kind, u.used.index);
    let seen = history.take(j);
    assert(seen[i] == history[i]);
    lemma_someone_used(seen, kind, index, u.pass, i);
    if barrier_for(seen, u) is None {
        if written_by(seen, kind, index, u.pass) {
            let k = choose|k: int|
                0 <= k < seen.len() && is_of(#[trigger] seen[k], kind, index) && seen[k].pass
                    == u.pass && seen[k].used.writes();
            assert(seen[k] == history[k]);
            assert(i < k) by {
                if k <= i {
                    assert(history[k].pass <= history[i].pass);
                    assert(history[i].pass <= history[j].pass);
                }
            }
            law_a_writing_pass_is_ordered(history, i, k);
        } else {
            let k = choose|k: int|
                0 <= k < seen.len() && is_of(#[trigger] seen[k], kind, index) && seen[k].pass
                    == u.pass;
            lemma_first_use(history, kind, index, k, j);
            let first = choose|first: int|
                0 <= first <= k && is_of(history[first], kind, index) && history[first].pass
                    == u.pass && #[trigger] barrier_for(history.take(first), history[first]) is Some;
            if first <= i {
                assert(history[first].pass <= history[i].pass);
                assert(history[i].pass <= history[j].pass);
            }
        }
    }
}

/// The first use of a resource by the pass of use `k` waits, when what the last
/// writer left is unread: it is at or before `k`.
proof fn lemma_first_use(history: Seq<Use>, kind: u32, index: u32, k: int, j: int)
    requires
        in_order(history),
        0 <= k < j < history.len(),
        is_of(history[k], kind, index),
        history[k].pass == history[j].pass,
        unread(history.take(j), kind, index, history[j].pass),
    ensures
        exists|first: int|
            0 <= first <= k && is_of(history[first], kind, index) && history[first].pass
                == history[j].pass && #[trigger] barrier_for(history.take(first), history[first]) is Some,
    decreases k,
{
    let pass = history[j].pass;
    let seen = history.take(k);
    if used_by(seen, kind, index, pass) {
        let m = choose|m: int|
            0 <= m < seen.len() && is_of(#[trigger] seen[m], kind, index) && seen[m].pass == pass;
        assert(seen[m] == history[m]);
        lemma_first_use(history, kind, index, m, j);
    } else {
        lemma_own_uses(history, kind, index, k, j);
        if written_by(seen, kind, index, pass) {
            let m = choose|m: int|
                0 <= m < seen.len() && is_of(#[trigger] seen[m], kind, index) && seen[m].pass
                    == pass && seen[m].used.writes();
            assert(used_by(seen, kind, index, pass));
        }
        assert(barrier_for(history.take(k), history[k]) is Some);
    }
}

/// A pass's own uses change nothing of what the others did.
proof fn lemma_own_uses(history: Seq<Use>, kind: u32, index: u32, k: int, j: int)
    requires
        in_order(history),
        0 <= k <= j < history.len(),
        history[k].pass == history[j].pass,
    ensures
        ({
            let pass = history[k].pass;
            &&& user_before(history.take(j), kind, index, pass) == user_before(
                history.take(k),
                kind,
                index,
                pass,
            )
            &&& writer_before(history.take(j), kind, index, pass) == writer_before(
                history.take(k),
                kind,
                index,
                pass,
            )
        }),
    decreases j - k,
{
    if k < j {
        assert(history[k].pass <= history[j - 1].pass);
        assert(history[j - 1].pass <= history[j].pass);
        lemma_own_uses(history, kind, index, k, j - 1);
        assert(history.take(j).drop_last() =~= history.take(j - 1));
    }
}

/// The pass names no resource twice.
pub open spec fn names_each_once(pass: Pass) -> bool {
    forall|i: int, j: int|
        0 <= i < j < uses_of(pass).len() ==> !(#[trigger] uses_of(pass)[i]).same_resource(
            #[trigger] uses_of(pass)[j],
        )
}

/// No pass names a resource twice.
pub open spec fn all_named_once(passes: Seq<Pass>) -> bool {
    forall|i: int| 0 <= i < passes.len() ==> names_each_once(#[trigger] passes[i])
}

/// The latest use of a resource.
pub open spec fn latest_use(history: Seq<Use>, kind: u32, index: u32) -> Option<Use>
    decreases history.len(),
{
    if history.len() == 0 {
        None
    } else if is_of(history.last(), kind, index) {
        Some(history.last())
    } else {
        latest_use(history.drop_last(), kind, index)
    }
}

/// The latest write of a resource.
pub open spec fn latest_write(history: Seq<Use>, kind: u32, index: u32) -> Option<Use>
    decreases history.len(),
{
    if history.len() == 0 {
        None
    } else if is_of(history.last(), kind, index) && history.last().used.writes() {
        Some(history.last())
    } else {
        latest_write(history.drop_last(), kind, index)
    }
}

/// The barrier between a use and the latest use by an earlier pass: there is one
/// where either of the two writes. It goes to that pass if it wrote, and otherwise to
/// the last that did, if any.
pub open spec fn hazard_of(history: Seq<Use>, used: ResourceUse) -> Option<Barrier> {
    match latest_use(history, used.kind, used.index) {
        Some(before) if before.used.writes() || used.writes() => Some(
            Barrier {
                kind: used.kind,
                index: used.index,
                after_pass: if before.used.writes() {
                    before.pass
                } else {
                    match latest_write(history, used.kind, used.index) {
                        Some(write) => write.pass,
                        None => u32::MAX,
                    }
                },
                to_write: used.writes(),
            },
        ),
        _ => None,
    }
}

/// The barriers between the uses of one pass and what earlier passes did, in the
/// order of the uses.
pub open spec fn hazards_of(history: Seq<Use>, uses: Seq<ResourceUse>) -> Seq<Barrier>
    decreases uses.len(),
{
    if uses.len() == 0 {
        Seq::empty()
    } else {
        let before = hazards_of(history, uses.drop_last());
        match hazard_of(history, uses.last()) {
            Some(b) => before.push(b),
            None => before,
        }
    }
}

/// Where passes name no resource twice, each pass adds one barrier for every use
/// whose resource an earlier pass used, where the latest such use or this one
/// writes, in the order of the uses, and no other.
pub proof fn law_a_pass_adds_a_barrier_for_each_hazard(passes: Seq<Pass>, pass: Pass)
    requires
        passes.len() <= u32::MAX,
        all_named_once(passes),
        names_each_once(pass),
    ensures
        barriers_of(history_of(passes.push(pass))) == barriers_of(history_of(passes)) + hazards_of(
            history_of(passes),
            uses_of(pass),
        ),
{
    let uses = uses_of(pass);
    let history = history_of(passes);
    assert(passes.push(pass).drop_last() =~= passes);
    assert(passes.push(pass).last() == pass);
    lemma_history_passes(passes);
    lemma_once_in_history(passes);
    lemma_hazards(history, passes.len() as u32, uses, uses.len() as int);
    assert(uses.take(uses.len() as int) =~= uses);
}

/// What was done to each resource was done by passes of their own.
spec fn once_in(history: Seq<Use>) -> bool {
    forall|i: int, j: int|
        0 <= i < j < history.len() && (#[trigger] history[i]).used.same_resource(
            (#[trigger] history[j]).used,
        ) ==> history[i].pass != history[j].pass
}

proof fn lemma_once_in_history(passes: Seq<Pass>)
    requires
        passes.len() <= u32::MAX,
        all_named_once(passes),
    ensures
        once_in(history_of(passes)),
    decreases passes.len(),
{
    if passes.len() > 0 {
        let before = passes.drop_last();
        let base = history_of(before);
        let history = history_of(passes);
        let uses = uses_of(passes.last());
        assert forall|i: int| 0 <= i < before.len() implies names_each_once(
            #[trigger] before[i],
        ) by {
            assert(before[i] == passes[i]);
        }
        lemma_once_in_history(before);
        lemma_history_passes(before);
        assert(names_each_once(passes[passes.len() - 1]));
        assert forall|i: int, j: int|
            0 <= i < j < history.len() && (#[trigger] history[i]).used.same_resource(
                (#[trigger] history[j]).used,
            ) implies history[i].pass != history[j].pass by {
            if j < base.len() {
                assert(history[i] == base[i] && history[j] == base[j]);
            } else if i < base.len() {
                assert(history[i] == base[i]);
                assert(history[j].pass == (passes.len() - 1) as u32);
            } else {
                let (a, b) = (i - base.len(), j - base.len());
                assert(history[i].used == uses[a] && history[j].used == uses[b]);
            }
        }
    }
}

/// The latest use and write of a resource, as a later pass sees them.
proof fn lemma_latest(history: Seq<Use>, kind: u32, index: u32, pass: u32)
    requires
        forall|k: int| 0 <= k < history.len() ==> (#[trigger] history[k]).pass < pass,
    ensures
        user_before(history, kind, index, pass) == match latest_use(history, kind, index) {
            Some(u) => Some(u.pass),
            None => None,
        },
        writer_before(history, kind, index, pass) == match latest_write(history, kind, index) {
            Some(u) => Some(u.pass),
            None => None,
        },
        latest_use(history, kind, index) matches Some(u) ==> exists|i: int|
            0 <= i < history.len() && #[trigger] history[i] == u && is_of(u, kind, index),
        latest_write(history, kind, index) matches Some(u) ==> exists|i: int|
            0 <= i < history.len() && #[trigger] history[i] == u && is_of(u, kind, index)
                && u.used.writes(),
        (latest_use(history, kind, index) is Some && latest_use(
            history,
            kind,
            index,
        )->0.used.writes()) ==> latest_write(history, kind, index) == latest_use(
            history,
            kind,
            index,
        ),
        once_in(history) && latest_use(history, kind, index) is Some && !latest_use(
            history,
            kind,
            index,
        )->0.used.writes() && latest_write(history, kind, index) is Some ==> latest_write(
            history,
            kind,
            index,
        )->0.pass != latest_use(history, kind, index)->0.pass,
    decreases history.len(),
{
    if history.len() > 0 {
        let rest = history.drop_last();
        let n = history.len() - 1;
        assert(history[n] == history.last());
        assert forall|k: int| 0 <= k < rest.len() implies (#[trigger] rest[k]).pass < pass by {
            assert(rest[k] == history[k]);
        }
        if once_in(history) {
            assert forall|i: int, j: int|
                0 <= i < j < rest.len() && (#[trigger] rest[i]).used.same_resource(
                    (#[trigger] rest[j]).used,
                ) implies rest[i].pass != rest[j].pass by {
                assert(rest[i] == history[i] && rest[j] == history[j]);
            }
        }
        lemma_latest(rest, kind, index, pass);
        if let Some(u) = latest_use(rest, kind, index) {
            let i = choose|i: int| 0 <= i < rest.len() && #[trigger] rest[i] == u;
            assert(history[i] == u);
        }
        if let Some(u) = latest_write(rest, kind, index) {
            let i = choose|i: int| 0 <= i < rest.len() && #[trigger] rest[i] == u;
            assert(history[i] == u);
            if is_of(history.last(), kind, index) {
                assert(history[i].used.same_resource(history[n].used));
            }
        }
    }
}

/// The barriers of the first `n` uses of a pass.
proof fn lemma_hazards(history: Seq<Use>, pass: u32, uses: Seq<ResourceUse>, n: int)
    requires
        0 <= n <= uses.len(),
        once_in(history),
        forall|k: int| 0 <= k < history.len() ==> (#[trigger] history[k]).pass < pass,
        forall|i: int, j: int|
            0 <= i < j < uses.len() ==> !(#[trigger] uses[i]).same_resource(#[trigger] uses[j]),
    ensures
        barriers_of(with_uses(history, pass, uses.take(n))) == barriers_of(history) + hazards_of(
            history,
            uses.take(n),
        ),
    decreases n,
{
    if n == 0 {
        assert(with_uses(history, pass, uses.take(0)) =~= history);
        assert(barriers_of(history) + Seq::<Barrier>::empty() =~= barriers_of(history));
    } else {
        lemma_hazards(history, pass, uses, n - 1);
        let used = uses[n - 1];
        let u = Use { pass, used };
        let seen = with_uses(history, pass, uses.take(n - 1));
        let all = with_uses(history, pass, uses.take(n));
        assert(uses.take(n).drop_last() =~= uses.take(n - 1));
        assert(uses.take(n).last() == used);
        assert(all.drop_last() =~= seen);
        assert(all.last() == u);
        assert forall|i: int|
            0 <= i < seen.len() && is_of(
                #[trigger] seen[i],
                used.kind,
                used.index,
            ) implies seen[i].pass != pass by {
            if i < history.len() {
                assert(seen[i] == history[i]);
            } else {
                let k = i - history.len();
                assert(seen[i].used == uses[k]);
                assert(!uses[k].same_resource(uses[n - 1]));
            }
        }
        lemma_own_do_not_count(history, pass, uses.take(n - 1), used.kind, used.index);
        lemma_latest(history, used.kind, used.index, pass);
        assert(!used_by(seen, used.kind, used.index, pass));
        assert(!written_by(seen, used.kind, used.index, pass));
        assert(barrier_for(seen, u) == hazard_of(history, used));
        let (old, more) = (barriers_of(history), hazards_of(history, uses.take(n - 1)));
        match hazard_of(history, used) {
            Some(b) => {
                assert((old + more).push(b) =~= old + more.push(b));
            },
            None => {},
        }
    }
}

/// The uses of a pass do not count as another's.
proof fn lemma_own_do_not_count(
    history: Seq<Use>,
    pass: u32,
    uses: Seq<ResourceUse>,
    kind: u32,
    index: u32,
)
    ensures
        user_before(with_uses(history, pass, uses), kind, index, pass) == user_before(
            history,
            kind,
            index,
            pass,
        ),
        writer_before(with_uses(history, pass, uses), kind, index, pass) == writer_before(
            history,
            kind,
            index,
            pass,
        ),
    decreases uses.len(),
{
    let seen = with_uses(history, pass, uses);
    if uses.len() == 0 {
        assert(seen =~= history);
    } else {
        lemma_own_do_not_count(history, pass, uses.drop_last(), kind, index);
        assert(seen.drop_last() =~= with_uses(history, pass, uses.drop_last()));
        assert(seen.last().pass == pass);
    }
}

/// What a list holds is decided by its passes alone, whatever it held before it was
/// cleared: lists of the same passes have the same barriers.
pub proof fn law_the_same_passes_have_the_same_barriers(a: &PassList, b: &PassList)
    requires
        a.wf(),
        b.wf(),
        a.list() == b.list(),
    ensures
        a.hazards() == b.hazards(),
{
    a.law_the_barriers_are_those_of_the_passes();
    b.law_the_barriers_are_those_of_the_passes();
}

pub const BUMP_SHADOW_RELEVANT: u32 = 1;

pub const BUMP_STATIC_GEOMETRY: u32 = 2;

pub const BUMP_LIGHTS: u32 = 4;

/// The change moves a shadow: casters, or the lights themselves.
pub open spec fn moves_shadows(flags: u32) -> bool {
    flags & (BUMP_SHADOW_RELEVANT | BUMP_LIGHTS) != 0
}

/// The change is to static geometry.
pub open spec fn moves_static(flags: u32) -> bool {
    flags & BUMP_STATIC_GEOMETRY != 0
}

/// The revisions of the world: the invalidation hook the static-cascade cache is
/// built on.
#[derive(Clone, Copy, Debug, PartialEq, Eq, Structural)]
pub struct WorldRevision {
    pub world: u64,
    pub shadow_relevant: u64,
    pub static_geometry: u64,
    pub bumps: u64,
}

impl WorldRevision {
    pub fn new() -> (r: Self)
        ensures
            r == (WorldRevision { world: 1, shadow_relevant: 1, static_geometry: 1, bumps: 0 }),
    {
        WorldRevision { world: 1, shadow_relevant: 1, static_geometry: 1, bumps: 0 }
    }

    pub fn revision(&self) -> (n: u64)
        ensures
            n == self.world,
    {
        self.world
    }

    /// Revision used in shadow cache keys: only changes when shadow-relevant
    /// geometry moved, so adding a UI quad does not throw away the cascade.
    pub fn shadow_revision(&self) -> (n: u64)
        ensures
            n == self.shadow_relevant,
    {
        self.shadow_relevant
    }

    pub fn static_geometry_revision(&self) -> (n: u64)
        ensures
            n == self.static_geometry,
    {
        self.static_geometry
    }

    /// The revisions after a change.
    pub open spec fn bumped(self, flags: u32) -> WorldRevision {
        WorldRevision {
            world: self.world.wrapping_add(1),
            shadow_relevant: if moves_shadows(flags) {
                self.shadow_relevant.wrapping_add(1)
            } else {
                self.shadow_relevant
            },
            static_geometry: if moves_static(flags) {
                self.static_geometry.wrapping_add(1)
            } else {
                self.static_geometry
            },
            bumps: (self.bumps + 1) as u64,
        }
    }

    /// Records a change. No flags is "something changed that no shadow cares
    /// about" and must not retire a cascade, because retiring one costs a full
    /// re-render of the static set. A light change does retire them.
    pub fn bump(&mut self, flags: u32)
        requires
            old(self).bumps < u64::MAX,
        ensures
            *final(self) == old(self).bumped(flags),
    {
        self.world = self.world.wrapping_add(1);
        if flags & (BUMP_SHADOW_RELEVANT | BUMP_LIGHTS) != 0 {
            self.shadow_relevant = self.shadow_relevant.wrapping_add(1);
        }
        if flags & BUMP_STATIC_GEOMETRY != 0 {
            self.static_geometry = self.static_geometry.wrapping_add(1);
        }
        self.bumps = self.bumps + 1;
    }
}

/// A bump always changes the world's revision, and the others exactly when the
/// flags say so: a plain bump retires nothing, a light change retires the
/// cascades, a static edit is not a light change.
pub proof fn law_a_bump_retires_what_its_flags_name(r: WorldRevision, flags: u32)
    ensures
        r.bumped(flags).world != r.world,
        (r.bumped(flags).shadow_relevant != r.shadow_relevant) <==> moves_shadows(flags),
        (r.bumped(flags).static_geometry != r.static_geometry) <==> moves_static(flags),
        !moves_shadows(0) && !moves_static(0),
        moves_shadows(BUMP_SHADOW_RELEVANT) && !moves_static(BUMP_SHADOW_RELEVANT),
        moves_shadows(BUMP_LIGHTS) && !moves_static(BUMP_LIGHTS),
        moves_static(BUMP_STATIC_GEOMETRY) && !moves_shadows(BUMP_STATIC_GEOMETRY),
{
    assert(0u32 & (1u32 | 4u32) == 0 && 0u32 & 2u32 == 0 && 1u32 & (1u32 | 4u32) != 0 && 1u32 & 2u32
        == 0 && 4u32 & (1u32 | 4u32) != 0 && 4u32 & 2u32 == 0 && 2u32 & 2u32 != 0 && 2u32 & (1u32
        | 4u32) == 0) by (bit_vector);
}

/// Whether a draw is eligible for the cached static cascade.
#[derive(Clone, Copy, PartialEq, Eq, Debug, Structural)]
pub enum GeometryClass {
    /// Never moves. Renders into the cached cascade, which survives across frames.
    Static,
    /// Moves or animates. Rendered every shadow pass.
    Dynamic,
}

impl GeometryClass {
    /// The lowest flag marks what moves.
    pub fn from_flags(flags: u32) -> (c: Self)
        ensures
            c == if flags % 2 == 1 {
                GeometryClass::Dynamic
            } else {
                GeometryClass::Static
            },
    {
        assert(flags & 1 == flags % 2) by (bit_vector);
        if flags & 1 != 0 {
            GeometryClass::Dynamic
        } else {
            GeometryClass::Static
        }
    }

    pub fn is_static(self) -> (r: bool)
        ensures
            r == (self == GeometryClass::Static),
    {
        matches!(self, GeometryClass::Static)
    }
}

/// Flags count by their bits: the first and the third say that shadows moved, the
/// second that static geometry did, and no other bit says either. Each change counts
/// one further, and every bump counts.
pub proof fn law_every_flag_counts_for_itself(r: WorldRevision, flags: u32)
    requires
        r.world < u64::MAX,
        r.shadow_relevant < u64::MAX,
        r.static_geometry < u64::MAX,
        r.bumps < u64::MAX,
    ensures
        ({
            let after = r.bumped(flags);
            let shadows = flags % 2 == 1 || (flags / 4) % 2 == 1;
            let statics = (flags / 2) % 2 == 1;
            &&& after.world == r.world + 1
            &&& after.bumps == r.bumps + 1
            &&& after.shadow_relevant == r.shadow_relevant + if shadows { 1int } else { 0int }
            &&& after.static_geometry == r.static_geometry + if statics { 1int } else { 0int }
        }),
{
    assert((flags & (1u32 | 4u32) != 0) == (flags % 2 == 1 || (flags / 4) % 2 == 1))
        by (bit_vector);
    assert((flags & 2u32 != 0) == ((flags / 2) % 2 == 1)) by (bit_vector);
}

/// A pass uses what stands in its table, in order, up to its count.
pub proof fn law_a_pass_uses_its_table_in_order(pass: Pass, i: int)
    requires
        forall|k: int|
            0 <= k < 8 && k < pass.use_count ==> (#[trigger] pass.uses@[k]) is Some,
        0 <= i < 8,
        i < pass.use_count,
    ensures
        uses_of(pass).len() == if pass.use_count < 8 {
            pass.use_count as int
        } else {
            8
        },
        uses_of(pass)[i] == pass.uses@[i]->0,
{
    lemma_uses_are(pass.uses@, counted_uses(pass));
}

proof fn lemma_uses_are(uses: Seq<Option<ResourceUse>>, n: nat)
    requires
        n <= uses.len(),
        forall|k: int| 0 <= k < n ==> (#[trigger] uses[k]) is Some,
    ensures
        uses_upto(uses, n).len() == n,
        forall|k: int| 0 <= k < n ==> #[trigger] uses_upto(uses, n)[k] == uses[k]->0,
    decreases n,
{
    if n > 0 {
        lemma_uses_are(uses, (n - 1) as nat);
    }
}

/// Two uses conflict when they are of one resource and are not both reads, whichever
/// comes first.
pub proof fn law_uses_conflict_unless_both_read(a: ResourceUse, b: ResourceUse)
    ensures
        a.conflicts(b) <==> a.kind == b.kind && a.index == b.index && !(a.access == Access::Read
            && b.access == Access::Read),
        a.conflicts(b) == b.conflicts(a),
{
}

/// An order of passes stands exactly when every shadow map that a scene pass reads has
/// been drawn by a pass before it.
pub proof fn law_shadows_are_drawn_before_they_are_sampled(passes: Seq<Pass>)
    ensures
        (forall|i: int| !#[trigger] unshadowed(passes, i)) <==> (forall|i: int, j: int|
            0 <= i < passes.len() && passes[i].kind is Scene && 0 <= j < uses_of(passes[i]).len()
                && (#[trigger] uses_of(passes[i])[j]).kind == RES_SHADOW_MAP && uses_of(
                passes[i],
            )[j].access == Access::Read ==> exists|k: int|
                0 <= k < i && (#[trigger] passes[k]).kind == (PassKind::Shadow {
                    cascade: uses_of(passes[i])[j].index,
                })),
{
    if forall|i: int| !#[trigger] unshadowed(passes, i) {
        assert forall|i: int, j: int|
            0 <= i < passes.len() && passes[i].kind is Scene && 0 <= j < uses_of(passes[i]).len()
                && (#[trigger] uses_of(passes[i])[j]).kind == RES_SHADOW_MAP && uses_of(
                passes[i],
            )[j].access == Access::Read implies exists|k: int|
            0 <= k < i && (#[trigger] passes[k]).kind == (PassKind::Shadow {
                cascade: uses_of(passes[i])[j].index,
            }) by {
            assert(!unshadowed(passes, i));
            assert(samples(uses_of(passes[i])[j]));
            assert(cascade_drawn(passes, i, uses_of(passes[i])[j].index));
        }
    }
}

/// A pass waits no more for what it has waited for: once it has written a resource, or
/// used it in any way before a read, its further uses of it need no barrier.
pub proof fn law_a_pass_waits_for_a_resource_once(history: Seq<Use>, u: Use, k: int)
    requires
        0 <= k < history.len(),
        history[k].pass == u.pass,
        history[k].used.same_resource(u.used),
        history[k].used.access != Access::Read || u.used.access == Access::Read,
    ensures
        barrier_for(history, u) is None,
{
    let (kind, index) = (u.used.kind, u.used.index);
    assert(is_of(history[k], kind, index));
    assert(used_by(history, kind, index, u.pass));
    if history[k].used.writes() {
        assert(written_by(history, kind, index, u.pass));
    }
}

} // verus!
