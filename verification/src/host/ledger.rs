//! The host allocator's ledger, and where its blocks keep their bookkeeping.
//!
//! The host allocator is the only place a host sees every block the renderer
//! really takes. The renderer reports its own view of that traffic; these
//! counters are the host side of the same ledger, so the two can be compared
//! rather than trusted.
//!
//! Blocks carry their bookkeeping in 16 bytes of slack before the aligned
//! address - the allocation's base and its size - so a free can hand back exactly
//! the layout that was asked for.
use vstd::prelude::*;

verus! {

/// Slack in front of every aligned address: the base and the size of the block.
pub const SLACK: usize = 16;

#[derive(Clone, Copy, Debug, PartialEq, Eq, Structural)]
pub struct Counters {
    pub alloc_calls: u64,
    pub alloc_bytes: u64,
    pub free_calls: u64,
    pub live_bytes: u64,
    pub peak_bytes: u64,
}

impl Default for Counters {
    fn default() -> (r: Self)
        ensures
            r == zeroed(),
    {
        Counters { alloc_calls: 0, alloc_bytes: 0, free_calls: 0, live_bytes: 0, peak_bytes: 0 }
    }
}

/// A ledger in which nothing is booked.
pub open spec fn zeroed() -> Counters {
    Counters { alloc_calls: 0, alloc_bytes: 0, free_calls: 0, live_bytes: 0, peak_bytes: 0 }
}

/// A count of calls as a signed number of 64 bits.
pub open spec fn signed(n: u64) -> int {
    if n <= i64::MAX {
        n as int
    } else {
        n - 0x1_0000_0000_0000_0000
    }
}

fn as_signed(n: u64) -> (r: i64)
    ensures
        r == signed(n),
{
    if n <= i64::MAX as u64 {
        n as i64
    } else {
        -1 - (u64::MAX - n) as i64
    }
}

impl Counters {
    /// No ledger was ever above its peak.
    pub open spec fn wf(&self) -> bool {
        self.live_bytes <= self.peak_bytes
    }

    /// Allocations and frees still outstanding: zero after every handle is
    /// released is what proves the host handed back all the memory.
    pub fn live_blocks(&self) -> (r: i64)
        requires
            i64::MIN <= signed(self.alloc_calls) - signed(self.free_calls) <= i64::MAX,
        ensures
            r == signed(self.alloc_calls) - signed(self.free_calls),
    {
        as_signed(self.alloc_calls) - as_signed(self.free_calls)
    }
}

/// What the allocator has been asked for since its start, or since the last
/// [`reset`].
pub fn counters(ledger: &Counters) -> (r: Counters)
    ensures
        r == *ledger,
{
    *ledger
}

/// Zeroes the counters. A tool calls this immediately before the region it wants
/// to measure, so "0 allocations during the frames" is about those frames.
///
/// Only the *counts* are trustworthy after a reset; the live-bytes figure is
/// relative to the reset point, because blocks taken earlier and released later
/// are not attributable to either window.
pub fn reset(ledger: &mut Counters)
    ensures
        *final(ledger) == zeroed(),
{
    *ledger = Counters::default();
}

/// A sum that stays at the top of its range.
pub open spec fn capped(n: int) -> u64 {
    if n > u64::MAX {
        u64::MAX
    } else if n < 0 {
        0
    } else {
        n as u64
    }
}

/// A ledger with one more block taken.
pub open spec fn booked(c: Counters, size: u64) -> Counters {
    let live = capped(c.live_bytes + size);
    Counters {
        alloc_calls: capped(c.alloc_calls + 1),
        alloc_bytes: capped(c.alloc_bytes + size),
        free_calls: c.free_calls,
        live_bytes: live,
        peak_bytes: if live > c.peak_bytes {
            live
        } else {
            c.peak_bytes
        },
    }
}

/// A ledger with one more block handed back.
pub open spec fn released(c: Counters, size: u64) -> Counters {
    Counters {
        free_calls: capped(c.free_calls + 1),
        live_bytes: capped(c.live_bytes - size),
        ..c
    }
}

/// Books an allocation. Every step saturates: a counter that wraps would report a
/// steady state as billions of bytes live.
///
/// The live figure saturates at both ends for one specific case: a block taken
/// *before* a [`reset`] and released after it. That free subtracts nothing rather
/// than driving the figure negative, which is why a claim about a measurement
/// window is made from [`Counters::alloc_calls`] and not from the live total.
pub fn note_alloc(ledger: &mut Counters, size: u64)
    ensures
        *final(ledger) == booked(*old(ledger), size),
{
    ledger.alloc_calls = ledger.alloc_calls.saturating_add(1);
    ledger.alloc_bytes = ledger.alloc_bytes.saturating_add(size);
    ledger.live_bytes = ledger.live_bytes.saturating_add(size);
    if ledger.live_bytes > ledger.peak_bytes {
        ledger.peak_bytes = ledger.live_bytes;
    }
}

/// Books a free.
pub fn note_free(ledger: &mut Counters, size: u64)
    ensures
        *final(ledger) == released(*old(ledger), size),
{
    ledger.free_calls = ledger.free_calls.saturating_add(1);
    ledger.live_bytes = ledger.live_bytes.saturating_sub(size);
}

/// A block to ask the system for.
#[derive(Clone, Copy, Debug, PartialEq, Eq, Structural)]
pub struct BlockPlan {
    /// What the ledger books.
    pub size: usize,
    pub align: usize,
    /// What the system is asked for.
    pub total: usize,
}

/// The alignment a block gets for the one that was asked for.
pub open spec fn alignment_for(alignment: usize) -> usize {
    if alignment < 16 {
        16
    } else if alignment > 4096 {
        4096
    } else {
        alignment
    }
}

/// The bytes a block is booked with: never none.
pub open spec fn size_for(size: usize) -> usize {
    if size == 0 {
        1
    } else {
        size
    }
}

/// What to ask the system for, or `None` where no block can be that large.
pub fn plan_block(size: usize, alignment: usize) -> (r: Option<BlockPlan>)
    ensures
        match r {
            Some(p) => {
                &&& p.size == size_for(size)
                &&& p.align == alignment_for(alignment)
                &&& p.total == p.size + p.align + SLACK
            },
            None => size_for(size) + alignment_for(alignment) + SLACK > usize::MAX,
        },
{
    let align: usize = if alignment < 16 {
        16
    } else if alignment > 4096 {
        4096
    } else {
        alignment
    };
    let size: usize = if size == 0 {
        1
    } else {
        size
    };
    match size.checked_add(align) {
        Some(v) => match v.checked_add(SLACK) {
            Some(total) => Some(BlockPlan { size, align, total }),
            None => None,
        },
        None => None,
    }
}

/// Where the caller's bytes start in a block that starts at `raw`.
pub open spec fn start_in(raw: usize, align: usize) -> usize {
    ((raw + SLACK + align - 1) as usize) & !((align - 1) as usize)
}

/// The aligned address inside a block.
pub fn aligned_address(raw: usize, align: usize) -> (r: usize)
    requires
        align > 0,
        raw + SLACK + align - 1 <= usize::MAX,
    ensures
        r == start_in(raw, align),
{
    (raw + SLACK + (align - 1)) & !(align - 1)
}

/// How many bytes a resized block keeps.
pub fn kept_bytes(old_size: usize, new_size: usize) -> (r: usize)
    ensures
        r == if old_size <= new_size {
            old_size
        } else {
            new_size
        },
{
    if old_size <= new_size {
        old_size
    } else {
        new_size
    }
}

/// For an alignment that is a power of two, the caller's bytes are aligned, the
/// two words of bookkeeping lie before them, and all of it is inside the block.
pub proof fn law_a_block_holds_its_bookkeeping_and_its_bytes(raw: usize, plan: BlockPlan)
    requires
        plan.align == alignment_for(plan.align),
        plan.align & ((plan.align - 1) as usize) == 0,
        plan.total == plan.size + plan.align + SLACK,
        raw + plan.total <= usize::MAX,
    ensures
        start_in(raw, plan.align) & ((plan.align - 1) as usize) == 0,
        raw + SLACK <= start_in(raw, plan.align),
        start_in(raw, plan.align) + plan.size <= raw + plan.total,
{
    let x = (raw + SLACK + plan.align - 1) as usize;
    let mask = (plan.align - 1) as usize;
    let align = plan.align;
    assert(x & !mask <= x && x - (x & !mask) < align && (x & !mask) & mask == 0) by (bit_vector)
        requires
            align & mask == 0usize,
            align >= 16usize,
            mask == align - 1;
}

/// A block that is taken and handed back leaves the live figures as they were,
/// as long as no counter is at the end of its range.
pub proof fn law_a_returned_block_leaves_nothing_live(c: Counters, size: u64)
    requires
        c.live_bytes + size <= u64::MAX,
        c.alloc_calls < i64::MAX,
        c.free_calls < i64::MAX,
    ensures
        ({
            let after = released(booked(c, size), size);
            &&& after.live_bytes == c.live_bytes
            &&& signed(after.alloc_calls) - signed(after.free_calls) == signed(c.alloc_calls)
                - signed(c.free_calls)
        }),
{
}

/// No booking puts the live figure above the peak, and no booking lowers the peak.
pub proof fn law_the_peak_covers_what_is_live(c: Counters, size: u64)
    requires
        c.wf(),
    ensures
        booked(c, size).wf(),
        released(c, size).wf(),
        booked(c, size).peak_bytes >= c.peak_bytes,
        released(c, size).peak_bytes == c.peak_bytes,
{
}

/// An allocation books itself: one more call, its bytes allocated and live, nothing
/// freed, and the peak raised to what is live if that is more. A return books one more
/// free and takes its bytes off what is live, and nothing else.
pub proof fn law_a_block_is_booked_for_what_it_is(c: Counters, size: u64)
    requires
        c.alloc_calls < u64::MAX,
        c.free_calls < u64::MAX,
        c.alloc_bytes + size <= u64::MAX,
        c.live_bytes + size <= u64::MAX,
    ensures
        ({
            let (up, down) = (booked(c, size), released(c, size));
            &&& up.alloc_calls == c.alloc_calls + 1
            &&& up.alloc_bytes == c.alloc_bytes + size
            &&& up.free_calls == c.free_calls
            &&& up.live_bytes == c.live_bytes + size
            &&& up.peak_bytes >= c.peak_bytes && up.peak_bytes >= c.live_bytes + size
            &&& up.peak_bytes == c.peak_bytes || up.peak_bytes == c.live_bytes + size
            &&& down.free_calls == c.free_calls + 1
            &&& down.alloc_calls == c.alloc_calls
            &&& down.alloc_bytes == c.alloc_bytes
            &&& down.peak_bytes == c.peak_bytes
            &&& size <= c.live_bytes ==> down.live_bytes == c.live_bytes - size
            &&& size > c.live_bytes ==> down.live_bytes == 0
        }),
{
}

/// No counter turns over: at the end of its range it stays there.
pub proof fn law_a_counter_stays_at_its_end(c: Counters, size: u64)
    ensures
        booked(c, size).alloc_bytes >= c.alloc_bytes,
        booked(c, size).alloc_calls >= c.alloc_calls,
        booked(c, size).live_bytes >= c.live_bytes,
        released(c, size).free_calls >= c.free_calls,
        released(c, size).live_bytes <= c.live_bytes,
        c.alloc_bytes + size > u64::MAX ==> booked(c, size).alloc_bytes == u64::MAX,
{
}

/// A block is aligned as asked for, but to no less than 16 bytes and to no more than
/// 4096, and never empty.
pub proof fn law_a_block_is_aligned_within_its_limits(size: usize, alignment: usize)
    ensures
        16 <= alignment_for(alignment) <= 4096,
        16 <= alignment <= 4096 ==> alignment_for(alignment) == alignment,
        alignment < 16 ==> alignment_for(alignment) == 16,
        alignment > 4096 ==> alignment_for(alignment) == 4096,
        size_for(size) >= 1,
        size >= 1 ==> size_for(size) == size,
{
}

} // verus!
