//! Upload staging.
//!
//! Uploads happen at a resource boundary, not per draw. A buffer's memory is
//! reserved once, and the pool reuses its buffers.
use crate::error::{Code, Error};
use crate::host_vec;
use crate::host_vec::HostVec;
use crate::num;
use vstd::prelude::*;

verus! {

pub struct StagingBuffer {
    bytes: HostVec<u8>,
    used: usize,
    generation: u64,
}

impl StagingBuffer {
    pub closed spec fn wf(&self) -> bool {
        &&& self.bytes.wf()
        &&& self.used <= self.bytes@.len()
    }

    /// The bytes staged since the last reset.
    pub closed spec fn contents(&self) -> Seq<u8> {
        self.bytes@.take(self.used as int)
    }

    /// How many bytes the buffer can hold.
    pub closed spec fn room(&self) -> int {
        self.bytes.room()
    }

    /// How often the buffer was reset.
    pub closed spec fn resets(&self) -> u64 {
        self.generation
    }

    /// A buffer of `capacity` bytes, and at least one. Refused when it is more than
    /// one vector may reserve, or the allocator refuses.
    pub fn new(capacity: usize) -> (r: Result<Self, Error>)
        ensures
            r matches Ok(b) ==> {
                &&& b.wf()
                &&& b.contents() == Seq::<u8>::empty()
                &&& b.room() == if capacity > 1 { capacity as int } else { 1 }
                &&& b.resets() == 0
            },
            host_vec::is_over_limit::<u8>(capacity as int) ==> r is Err,
            r matches Err(e) ==> e.says(
                Code::OutOfMemory,
                host_vec::refusal::<u8>(num::imax(capacity as int, 1)),
            ),
    {
        broadcast use vstd::layout::layout_of_primitives;

        let mut bytes: HostVec<u8> = HostVec::new();
        match bytes.try_reserve(if capacity > 1 { capacity } else { 1 }) {
            Ok(()) => {},
            Err(e) => return Err(e),
        }
        let b = StagingBuffer { bytes, used: 0, generation: 0 };
        assert(b.contents() =~= Seq::<u8>::empty());
        Ok(b)
    }

    pub fn capacity(&self) -> (n: usize)
        ensures
            n == self.room(),
    {
        self.bytes.capacity()
    }

    pub fn used(&self) -> (n: usize)
        requires
            self.wf(),
        ensures
            n == self.contents().len(),
    {
        self.used
    }

    pub fn generation(&self) -> (n: u64)
        ensures
            n == self.resets(),
    {
        self.generation
    }

    /// Forgets what was staged.
    pub fn reset(&mut self)
        requires
            old(self).wf(),
            old(self).resets() < u64::MAX,
        ensures
            final(self).wf(),
            final(self).contents() == Seq::<u8>::empty(),
            final(self).room() == old(self).room(),
            final(self).resets() == old(self).resets() + 1,
    {
        self.used = 0;
        self.generation = self.generation + 1;
        assert(self.contents() =~= Seq::<u8>::empty());
    }

    /// Copies `data` in and returns the offset it landed at. A full buffer is a
    /// returned error, and keeps what it holds.
    pub fn stage(&mut self, data: &[u8]) -> (r: Result<usize, Error>)
        requires
            old(self).wf(),
        ensures
            final(self).wf(),
            final(self).room() == old(self).room(),
            final(self).resets() == old(self).resets(),
            r is Ok <==> old(self).contents().len() + data@.len() <= old(self).room(),
            r matches Ok(at) ==> {
                &&& at == old(self).contents().len()
                &&& final(self).contents() == old(self).contents() + data@
            },
            r matches Err(e) ==> {
                &&& final(self).contents() == old(self).contents()
                &&& if old(self).contents().len() + data@.len() > usize::MAX {
                    e.says(Code::OutOfMemory, "staging offset overflow"@)
                } else {
                    e.says(Code::BudgetExceeded, "staging buffer is full"@)
                }
            },
    {
        let needed: usize = match self.used.checked_add(data.len()) {
            Some(n) => n,
            None => return Err(Error::new(Code::OutOfMemory, "staging offset overflow")),
        };
        if needed > self.bytes.capacity() {
            return Err(Error::new(Code::BudgetExceeded, "staging buffer is full"));
        }
        let at: usize = self.used;
        let ghost before = self.bytes@.take(at as int);
        match self.bytes.resize(needed, 0) {
            Ok(()) => {},
            Err(e) => return Err(e),
        }
        assert(self.bytes@.take(at as int) =~= before);
        let mut i: usize = 0;
        while i < data.len()
            invariant
                i <= data@.len(),
                self.bytes.wf(),
                self.bytes@.len() == needed,
                needed == at + data@.len(),
                self.bytes@.take(at as int) == before,
                self.bytes.room() == old(self).bytes.room(),
                self.generation == old(self).generation,
                self.used == at,
                forall|k: int| 0 <= k < i ==> self.bytes@[at + k] == #[trigger] data@[k],
            decreases data@.len() - i,
        {
            let ghost now = self.bytes@;
            self.bytes.set(at + i, data[i]);
            assert(self.bytes@.take(at as int) =~= now.take(at as int));
            i += 1;
        }
        self.used = needed;
        proof {
            assert forall|k: int| 0 <= k < needed implies self.contents()[k] == (before + data@)[k] by {
                if k < at {
                    assert(self.bytes@.take(at as int)[k] == before[k]);
                } else {
                    assert(self.bytes@[at + (k - at)] == data@[k - at]);
                }
            }
            assert(self.contents() =~= before + data@);
        }
        Ok(at)
    }

    pub fn staged(&self) -> (s: &[u8])
        requires
            self.wf(),
        ensures
            s@ == self.contents(),
    {
        let s: &[u8] = &self.bytes.as_slice()[0..self.used];
        assert(s@ =~= self.contents());
        s
    }
}

/// A small pool of staging buffers, one per in-flight upload.
pub struct StagingPool {
    pub buffers: Vec<StagingBuffer>,
    /// The size a buffer of the pool is made with.
    pub block: usize,
}

/// The buffer that was reset least often; among equals the first.
pub open spec fn least_used(buffers: Seq<StagingBuffer>) -> int
    decreases buffers.len(),
{
    if buffers.len() <= 1 {
        0
    } else {
        let i = least_used(buffers.drop_last());
        if buffers.last().resets() < buffers[i].resets() {
            buffers.len() - 1
        } else {
            i
        }
    }
}

pub open spec fn total_room(buffers: Seq<StagingBuffer>) -> int
    decreases buffers.len(),
{
    if buffers.len() == 0 {
        0
    } else {
        total_room(buffers.drop_last()) + buffers.last().room()
    }
}

impl StagingPool {
    pub open spec fn wf(&self) -> bool {
        forall|i: int| 0 <= i < self.buffers@.len() ==> (#[trigger] self.buffers@[i]).wf()
    }

    /// A pool of `count` buffers of `block_bytes` bytes each.
    pub fn new(block_bytes: usize, count: usize) -> (r: Result<Self, Error>)
        ensures
            r matches Ok(pool) ==> {
                &&& pool.wf()
                &&& pool.block == block_bytes
                &&& pool.buffers@.len() == count
                &&& forall|i: int|
                    0 <= i < count ==> {
                        let b = #[trigger] pool.buffers@[i];
                        &&& b.contents() == Seq::<u8>::empty()
                        &&& b.room() == if block_bytes > 1 { block_bytes as int } else { 1 }
                        &&& b.resets() == 0
                    }
            },
            r matches Err(e) ==> e.says(
                Code::OutOfMemory,
                host_vec::refusal::<u8>(num::imax(block_bytes as int, 1)),
            ),
            count == 0 ==> r is Ok,
            count > 0 && host_vec::is_over_limit::<u8>(block_bytes as int) ==> r is Err,
    {
        let mut buffers: Vec<StagingBuffer> = Vec::new();
        let mut i: usize = 0;
        while i < count
            invariant
                i <= count,
                buffers@.len() == i,
                i > 0 ==> !host_vec::is_over_limit::<u8>(block_bytes as int),
                forall|k: int|
                    0 <= k < i ==> {
                        let b = #[trigger] buffers@[k];
                        &&& b.wf()
                        &&& b.contents() == Seq::<u8>::empty()
                        &&& b.room() == if block_bytes > 1 { block_bytes as int } else { 1 }
                        &&& b.resets() == 0
                    },
            decreases count - i,
        {
            match StagingBuffer::new(block_bytes) {
                Ok(b) => buffers.push(b),
                Err(e) => return Err(e),
            }
            i += 1;
        }
        Ok(StagingPool { buffers, block: block_bytes })
    }

    pub fn block_bytes(&self) -> (n: usize)
        ensures
            n == self.block,
    {
        self.block
    }

    /// Hands out the buffer that was reset least often, reset. A pool without
    /// buffers makes one first.
    pub fn take(&mut self) -> (r: Result<&mut StagingBuffer, Error>)
        requires
            old(self).wf(),
            forall|i: int|
                0 <= i < old(self).buffers@.len() ==> (#[trigger] old(self).buffers@[i]).resets()
                    < u64::MAX,
        ensures
            old(self).buffers@.len() > 0 ==> r is Ok,
            r matches Err(e) ==> e.says(
                Code::OutOfMemory,
                host_vec::refusal::<u8>(num::imax(old(self).block as int, 1)),
            ) && *final(self) == *old(self),
            r matches Ok(b) ==> {
                &&& b.wf()
                &&& b.contents() == Seq::<u8>::empty()
                &&& final(self).block == old(self).block
                &&& old(self).buffers@.len() > 0 ==> {
                    let i = least_used(old(self).buffers@);
                    &&& b.room() == old(self).buffers@[i].room()
                    &&& b.resets() == old(self).buffers@[i].resets() + 1
                    &&& final(self).buffers@ == old(self).buffers@.update(i, *final(b))
                }
                &&& old(self).buffers@.len() == 0 ==> {
                    &&& b.room() == if old(self).block > 1 { old(self).block as int } else { 1
                    }
                    &&& b.resets() == 1
                    &&& final(self).buffers@ == seq![*final(b)]
                }
            },
    {
        if self.buffers.len() == 0 {
            match StagingBuffer::new(self.block) {
                Ok(b) => self.buffers.push(b),
                Err(e) => return Err(e),
            }
        }
        let i: usize = self.find_least_used();
        self.buffers[i].reset();
        Ok(&mut self.buffers[i])
    }

    fn find_least_used(&self) -> (i: usize)
        requires
            self.buffers@.len() > 0,
        ensures
            i == least_used(self.buffers@),
            i < self.buffers@.len(),
    {
        let mut best: usize = 0;
        let mut n: usize = 1;
        while n < self.buffers.len()
            invariant
                1 <= n <= self.buffers@.len(),
                best < n,
                best == least_used(self.buffers@.take(n as int)),
            decreases self.buffers@.len() - n,
        {
            assert(self.buffers@.take(n + 1).drop_last() =~= self.buffers@.take(n as int));
            if self.buffers[n].generation() < self.buffers[best].generation() {
                best = n;
            }
            n += 1;
        }
        assert(self.buffers@.take(n as int) =~= self.buffers@);
        best
    }

    pub fn total_capacity(&self) -> (n: usize)
        requires
            self.wf(),
            total_room(self.buffers@) <= usize::MAX,
        ensures
            n == total_room(self.buffers@),
    {
        let mut n: usize = 0;
        let mut i: usize = 0;
        while i < self.buffers.len()
            invariant
                i <= self.buffers@.len(),
                self.wf(),
                n == total_room(self.buffers@.take(i as int)),
                total_room(self.buffers@) <= usize::MAX,
            decreases self.buffers@.len() - i,
        {
            proof {
                assert(self.buffers@.take(i + 1).drop_last() =~= self.buffers@.take(i as int));
                lemma_total_room(self.buffers@, i + 1);
            }
            n = n + self.buffers[i].capacity();
            i += 1;
        }
        assert(self.buffers@.take(i as int) =~= self.buffers@);
        n
    }
}

proof fn lemma_total_room(buffers: Seq<StagingBuffer>, n: int)
    requires
        0 <= n <= buffers.len(),
        forall|i: int| 0 <= i < buffers.len() ==> (#[trigger] buffers[i]).wf(),
    ensures
        total_room(buffers.take(n)) <= total_room(buffers),
    decreases buffers.len(),
{
    if n == buffers.len() {
        assert(buffers.take(n) =~= buffers);
    } else {
        let rest = buffers.drop_last();
        assert forall|i: int| 0 <= i < rest.len() implies (#[trigger] rest[i]).wf() by {
            assert(rest[i] == buffers[i]);
        }
        lemma_total_room(rest, n);
        assert(rest.take(n) =~= buffers.take(n));
        assert(buffers[buffers.len() - 1].wf());
    }
}

/// The buffer that is handed out is one that was reset no more often than any other, and
/// the first of those.
pub proof fn law_the_buffer_handed_out_was_used_least(buffers: Seq<StagingBuffer>)
    requires
        buffers.len() > 0,
    ensures
        0 <= least_used(buffers) < buffers.len(),
        forall|i: int|
            0 <= i < buffers.len() ==> buffers[least_used(buffers)].resets() <= (
            #[trigger] buffers[i]).resets(),
        forall|i: int|
            0 <= i < least_used(buffers) ==> buffers[least_used(buffers)].resets() < (
            #[trigger] buffers[i]).resets(),
    decreases buffers.len(),
{
    if buffers.len() > 1 {
        let rest = buffers.drop_last();
        law_the_buffer_handed_out_was_used_least(rest);
        let k = least_used(buffers);
        assert forall|i: int| 0 <= i < buffers.len() implies buffers[k].resets() <= (
        #[trigger] buffers[i]).resets() by {
            if i < rest.len() {
                assert(rest[i] == buffers[i]);
            }
        }
        assert forall|i: int| 0 <= i < k implies buffers[k].resets() < (
        #[trigger] buffers[i]).resets() by {
            assert(rest[i] == buffers[i]);
        }
    }
}

} // verus!
