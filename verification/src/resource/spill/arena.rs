//! The state of an arena: which keys are on disk, where, and what was counted.
use crate::error::{Code, Error};
use crate::num;
use crate::resource::spill::contents;
use crate::resource::spill::laws;
use crate::resource::spill::layout;
use crate::resource::spill::layout::{header_bytes, read_header, read_record, record_bytes, verify};
use crate::resource::spill::layout::{Record, HEADER_BYTES, RECORD_HEADER_BYTES};
use vstd::prelude::*;

verus! {

/// What a lookup did. `Corrupt` is not an error: it is a miss that was detected.
#[derive(Clone, Copy, PartialEq, Eq, Debug, Structural)]
pub enum Hit {
    Fresh,
    Miss,
    /// The entry was found but failed validation: dropped, and reported.
    Corrupt,
}

#[derive(Clone, Copy, Debug, PartialEq, Eq, Structural)]
pub struct ArenaStats {
    pub entries: u64,
    pub bytes: u64,
    pub capacity: u64,
    pub hits: u64,
    pub misses: u64,
    pub corrupt: u64,
    pub evictions: u64,
    pub evicted_bytes: u64,
    pub recovered_torn: u64,
    pub compactions: u64,
    /// Dead bytes waiting for the compactor: overwritten records and evictions.
    pub garbage_bytes: u64,
    pub errors: u64,
}

impl ArenaStats {
    /// Nothing counted yet, under a cap of `capacity` bytes.
    pub open spec fn fresh(capacity: u64) -> ArenaStats {
        ArenaStats {
            entries: 0,
            bytes: 0,
            capacity,
            hits: 0,
            misses: 0,
            corrupt: 0,
            evictions: 0,
            evicted_bytes: 0,
            recovered_torn: 0,
            compactions: 0,
            garbage_bytes: 0,
            errors: 0,
        }
    }
}

pub struct SpillConfig {
    /// The directory the arena lives in.
    pub dir: String,
    pub file_name: String,
    /// Hard cap on arena bytes: a record that cannot fit under it is refused. 0 = no
    /// cap.
    pub max_bytes: u64,
    /// Seed for every checksum in this arena. A file that exists keeps the one it
    /// was made with.
    pub seed: u64,
}

impl SpillConfig {
    pub fn new(dir: String) -> (c: Self)
        ensures
            c.dir@ == dir@,
            c.file_name@ == "arena.rcls"@,
            c.max_bytes == 0,
            c.seed == 0x5243_4C53_5F41_5245,
    {
        SpillConfig {
            dir,
            file_name: String::from_str("arena.rcls"),
            max_bytes: 0,
            seed: 0x5243_4C53_5F41_5245,
        }
    }

    /// The directory and the file in it, for the host to join.
    pub fn path(&self) -> (r: (&str, &str))
        ensures
            r.0@ == self.dir@,
            r.1@ == self.file_name@,
    {
        (self.dir.as_str(), self.file_name.as_str())
    }
}

#[derive(Clone, Copy, Debug, PartialEq, Eq, Structural)]
pub struct IndexEntry {
    pub offset: u64,
    pub len: u32,
    pub checksum: u64,
    /// Monotonic use counter: the smallest goes first.
    pub last_used: u64,
}

/// A key and where its payload is.
#[derive(Clone, Copy, Debug, PartialEq, Eq, Structural)]
pub struct Slot {
    pub key: u64,
    pub entry: IndexEntry,
}

/// The record on disk that an index entry stands for.
pub open spec fn record_of_slot(slot: Slot) -> Record {
    Record {
        key: slot.key,
        offset: slot.entry.offset,
        len: slot.entry.len,
        checksum: slot.entry.checksum,
    }
}

/// The slot of a record, last used at `clock`.
pub open spec fn slot_of(record: Record, clock: u64) -> Slot {
    Slot {
        key: record.key,
        entry: IndexEntry {
            offset: record.offset,
            len: record.len,
            checksum: record.checksum,
            last_used: clock,
        },
    }
}

/// Where the key stands in the index.
pub open spec fn position(index: Seq<Slot>, key: u64) -> Option<int>
    decreases index.len(),
{
    if index.len() == 0 {
        None
    } else if index.last().key == key {
        Some(index.len() - 1)
    } else {
        position(index.drop_last(), key)
    }
}

/// What the index knows of a key.
pub open spec fn lookup(index: Seq<Slot>, key: u64) -> Option<IndexEntry> {
    match position(index, key) {
        None => None,
        Some(i) => Some(index[i].entry),
    }
}

/// No key stands in the index twice.
pub open spec fn distinct(index: Seq<Slot>) -> bool {
    forall|i: int, j: int|
        0 <= i < j < index.len() ==> #[trigger] index[i].key != #[trigger] index[j].key
}

/// No slot stands for an empty payload.
pub open spec fn filled(index: Seq<Slot>) -> bool {
    forall|i: int| 0 <= i < index.len() ==> (#[trigger] index[i]).entry.len > 0
}

/// Every record ends in front of `end`, or there.
pub open spec fn within(index: Seq<Slot>, end: int) -> bool {
    forall|i: int|
        0 <= i < index.len() ==> (#[trigger] index[i]).entry.offset + 24 + index[i].entry.len
            <= end
}

/// The index with the slot in it: in place of the one with its key, or at the
/// end.
pub open spec fn with_slot(index: Seq<Slot>, slot: Slot) -> Seq<Slot> {
    match position(index, slot.key) {
        None => index.push(slot),
        Some(i) => index.update(i, slot),
    }
}

/// The index without the key.
pub open spec fn without(index: Seq<Slot>, key: u64) -> Seq<Slot> {
    match position(index, key) {
        None => index,
        Some(i) => index.remove(i),
    }
}

/// The bytes the live records take on disk.
pub open spec fn live_bytes(index: Seq<Slot>) -> int
    decreases index.len(),
{
    if index.len() == 0 {
        0
    } else {
        live_bytes(index.drop_last()) + 24 + index.last().entry.len
    }
}

/// The slot used longest ago; among equals the first.
pub open spec fn oldest(index: Seq<Slot>) -> int
    decreases index.len(),
{
    if index.len() <= 1 {
        0
    } else {
        let o = oldest(index.drop_last());
        if index.last().entry.last_used < index[o].entry.last_used {
            index.len() - 1
        } else {
            o
        }
    }
}

/// The index once enough of the longest unused slots are gone for `needed` bytes
/// to fit under the cap.
pub open spec fn evicted(index: Seq<Slot>, needed: u64, cap: u64) -> Seq<Slot>
    decreases index.len(),
{
    if index.len() == 0 || live_bytes(index) + needed <= cap {
        index
    } else if 0 <= oldest(index) < index.len() {
        evicted(index.remove(oldest(index)), needed, cap)
    } else {
        index
    }
}

pub proof fn lemma_position(index: Seq<Slot>, key: u64)
    ensures
        position(index, key) matches Some(i) ==> 0 <= i < index.len() && index[i].key == key,
        position(index, key) is None ==> forall|i: int|
            0 <= i < index.len() ==> #[trigger] index[i].key != key,
    decreases index.len(),
{
    if index.len() > 0 && index.last().key != key {
        lemma_position(index.drop_last(), key);
        if position(index.drop_last(), key) is None {
            assert forall|i: int| 0 <= i < index.len() implies #[trigger] index[i].key != key by {
                if i < index.len() - 1 {
                    assert(index.drop_last()[i].key != key);
                }
            }
        }
    }
}

/// In an index of distinct keys a key has one place.
pub proof fn lemma_position_is(index: Seq<Slot>, i: int)
    requires
        distinct(index),
        0 <= i < index.len(),
    ensures
        position(index, index[i].key) == Some(i),
{
    lemma_position(index, index[i].key);
}

pub proof fn lemma_oldest(index: Seq<Slot>)
    requires
        index.len() > 0,
    ensures
        0 <= oldest(index) < index.len(),
        forall|i: int|
            0 <= i < index.len() ==> index[oldest(index)].entry.last_used <= (
            #[trigger] index[i]).entry.last_used,
    decreases index.len(),
{
    if index.len() > 1 {
        let rest = index.drop_last();
        lemma_oldest(rest);
        assert forall|i: int| 0 <= i < index.len() implies index[oldest(index)].entry.last_used <= (
        #[trigger] index[i]).entry.last_used by {
            if i < rest.len() {
                assert(rest[i] == index[i]);
            }
        }
    }
}

pub proof fn lemma_live_bytes_nat(index: Seq<Slot>)
    ensures
        live_bytes(index) >= 24 * index.len(),
    decreases index.len(),
{
    if index.len() > 0 {
        lemma_live_bytes_nat(index.drop_last());
    }
}

pub proof fn lemma_live_bytes_remove(index: Seq<Slot>, i: int)
    requires
        0 <= i < index.len(),
    ensures
        live_bytes(index.remove(i)) == live_bytes(index) - 24 - index[i].entry.len,
    decreases index.len(),
{
    if i == index.len() - 1 {
        assert(index.remove(i) =~= index.drop_last());
    } else {
        lemma_live_bytes_remove(index.drop_last(), i);
        assert(index.remove(i).drop_last() =~= index.drop_last().remove(i));
        assert(index.remove(i).last() == index.last());
    }
}

pub proof fn lemma_live_bytes_update(index: Seq<Slot>, i: int, slot: Slot)
    requires
        0 <= i < index.len(),
    ensures
        live_bytes(index.update(i, slot)) == live_bytes(index) - index[i].entry.len
            + slot.entry.len,
    decreases index.len(),
{
    if i == index.len() - 1 {
        assert(index.update(i, slot).drop_last() =~= index.drop_last());
    } else {
        lemma_live_bytes_update(index.drop_last(), i, slot);
        assert(index.update(i, slot).drop_last() =~= index.drop_last().update(i, slot));
    }
}

pub proof fn lemma_distinct_remove(index: Seq<Slot>, i: int)
    requires
        distinct(index),
        0 <= i < index.len(),
    ensures
        distinct(index.remove(i)),
{
}

pub proof fn lemma_distinct_with(index: Seq<Slot>, slot: Slot)
    requires
        distinct(index),
    ensures
        distinct(with_slot(index, slot)),
{
    lemma_position(index, slot.key);
}

/// The index of a log: of several records for one key the last counts.
pub open spec fn index_of(records: Seq<Record>) -> Seq<Slot>
    decreases records.len(),
{
    if records.len() == 0 {
        Seq::empty()
    } else {
        with_slot(index_of(records.drop_last()), slot_of(records.last(), 0))
    }
}

pub struct SpillArena {
    pub config: SpillConfig,
    pub index: Vec<Slot>,
    pub write_offset: u64,
    pub clock: u64,
    pub counted: ArenaStats,
    /// Bytes of dead records waiting for the compactor.
    pub garbage: u64,
}

/// What the host has to do to the file after an open.
#[derive(Clone, Copy, Debug, PartialEq, Eq, Structural)]
pub enum OpenAction {
    /// Write [`SpillArena::header`] over the start of the file.
    WriteHeader,
    /// Cut the file to this length, so that the next append overwrites the torn
    /// tail.
    Truncate(u64),
    Keep,
}

/// A record that is ready to be written.
pub struct PendingPut {
    pub record: Record,
    pub bytes: Vec<u8>,
}

impl PendingPut {
    /// The record holds this payload.
    pub open spec fn holds(&self, payload: Seq<u8>, seed: u64) -> bool {
        &&& payload.len() == self.record.len
        &&& self.record.checksum == layout::checksum_of(payload, seed)
        &&& self.bytes@ == layout::record_of(self.record.key, payload, seed)
    }
}

/// What a lookup found in the index.
#[derive(Clone, Copy, Debug, PartialEq, Eq, Structural)]
pub enum Lookup {
    Miss,
    /// Read `len` bytes at this offset, and say how that went.
    Read(u64, u32),
}

impl SpillArena {
    /// No key twice, no record without a payload, and none behind where the next one
    /// goes.
    pub open spec fn wf(&self) -> bool {
        &&& distinct(self.index@)
        &&& filled(self.index@)
        &&& within(self.index@, self.write_offset as int)
    }

    /// The arena and its file are sound together: every key that the arena holds
    /// reads back from the file as it was last put, the next record goes behind all
    /// of them, and the live bytes are within the cap. `last` is what was last put
    /// under each key.
    pub open spec fn keeps(&self, file: Seq<u8>, last: Map<u64, Seq<u8>>) -> bool {
        &&& contents::agree(
            self.index@,
            self.write_offset as int,
            self.config.seed,
            file,
            last,
        )
        &&& self.has_room_for(0)
    }

    /// Every counter has room for what one operation may add to it, when that
    /// operation needs `needed` bytes.
    pub open spec fn has_headroom(&self, needed: int) -> bool {
        &&& live_bytes(self.index@) + needed <= u64::MAX
        &&& self.garbage + live_bytes(self.index@) <= u64::MAX
        &&& self.counted.evictions + self.index@.len() <= u64::MAX
        &&& self.counted.evicted_bytes + live_bytes(self.index@) <= u64::MAX
        &&& self.write_offset + needed <= u64::MAX
        &&& self.clock < u64::MAX
        &&& self.counted.hits < u64::MAX
        &&& self.counted.misses < u64::MAX
        &&& self.counted.corrupt < u64::MAX
        &&& self.counted.errors < u64::MAX
        &&& self.counted.compactions < u64::MAX
    }

    /// A record with a payload of `len` bytes is larger than the cap.
    pub open spec fn is_over_cap(&self, len: int) -> bool {
        self.config.max_bytes != 0 && 24 + len > self.config.max_bytes
    }

    /// `needed` more bytes stay within the cap.
    pub open spec fn has_room_for(&self, needed: int) -> bool {
        self.config.max_bytes != 0 ==> live_bytes(self.index@) + needed <= self.config.max_bytes
    }

    /// An arena with nothing in it.
    fn empty(config: SpillConfig, corrupt: u64, recovered_torn: u64) -> (a: SpillArena)
        ensures
            a.wf(),
            a.config == config,
            a.index@ == Seq::<Slot>::empty(),
            a.write_offset == HEADER_BYTES,
            a.clock == 0,
            a.garbage == 0,
            a.counted == (ArenaStats {
                corrupt,
                recovered_torn,
                ..ArenaStats::fresh(config.max_bytes)
            }),
    {
        let capacity: u64 = config.max_bytes;
        SpillArena {
            config,
            index: Vec::new(),
            write_offset: HEADER_BYTES,
            clock: 0,
            counted: ArenaStats {
                entries: 0,
                bytes: 0,
                capacity,
                hits: 0,
                misses: 0,
                corrupt,
                evictions: 0,
                evicted_bytes: 0,
                recovered_torn,
                compactions: 0,
                garbage_bytes: 0,
                errors: 0,
            },
            garbage: 0,
        }
    }

    /// The header of this arena's file.
    pub fn header(&self) -> (bytes: Vec<u8>)
        ensures
            bytes@ == layout::header_of(self.config.seed),
    {
        header_bytes(self.config.seed)
    }

    /// Recovers whatever is intact of a file of `file_len` bytes.
    ///
    /// `image` is what could be read of it, from its start. A file that is too
    /// short or whose header is not whole is replaced, and that is counted.
    pub fn open(config: SpillConfig, file_len: u64, image: &[u8]) -> (r: Result<
        (SpillArena, OpenAction),
        Error,
    >)
        requires
            image@.len() <= file_len,
        ensures
            r is Err <==> file_len >= 32 && image@.len() < 32,
            r matches Err(e) ==> e.says(Code::Io, "could not read the arena header"@),
            r matches Ok((arena, action)) ==> {
                &&& arena.wf()
                &&& arena.clock == 0
                &&& file_len < 32 ==> {
                    &&& action == OpenAction::WriteHeader
                    &&& arena.config == config
                    &&& arena.index@ == Seq::<Slot>::empty()
                    &&& arena.write_offset == 32
                    &&& arena.garbage == 0
                    &&& arena.counted == (ArenaStats {
                        corrupt: if file_len > 0 { 1 } else { 0 },
                        ..ArenaStats::fresh(config.max_bytes)
                    })
                    &&& arena.keeps(layout::header_of(config.seed), Map::empty())
                }
                &&& file_len >= 32 && (forall|seed: u64| !layout::header_stands(image@, seed)) ==> {
                    &&& action == OpenAction::WriteHeader
                    &&& arena.config == config
                    &&& arena.index@ == Seq::<Slot>::empty()
                    &&& arena.write_offset == 32
                    &&& arena.garbage == 0
                    &&& arena.counted == (ArenaStats {
                        corrupt: 1,
                        recovered_torn: 1,
                        ..ArenaStats::fresh(config.max_bytes)
                    })
                    &&& arena.keeps(layout::header_of(config.seed), Map::empty())
                }
                &&& forall|seed: u64|
                    file_len >= 32 && #[trigger] layout::header_stands(image@, seed) ==> {
                        let records = layout::records_from(image@, seed, 32);
                        let end = 32 + layout::size_of_records(records);
                        &&& arena.config == (SpillConfig { seed, ..config })
                        &&& arena.index@ == index_of(records)
                        &&& arena.write_offset == end
                        &&& arena.garbage == layout::size_of_records(records) - live_bytes(
                            index_of(records),
                        )
                        &&& action == if end < file_len {
                            OpenAction::Truncate(end as u64)
                        } else {
                            OpenAction::Keep
                        }
                        &&& arena.counted == (ArenaStats {
                            recovered_torn: if end < file_len { 1 } else { 0 },
                            ..ArenaStats::fresh(config.max_bytes)
                        })
                        &&& arena.has_room_for(0) ==> arena.keeps(
                            image@,
                            contents::payloads_in(image@, seed),
                        )
                    }
            },
    {
        proof {
            contents::lemma_agree_new(config.seed);
        }
        if file_len < HEADER_BYTES {
            // Something may be there that is not an arena: replace it, and say so.
            let corrupt: u64 = if file_len > 0 { 1 } else { 0 };
            return Ok((SpillArena::empty(config, corrupt, 0), OpenAction::WriteHeader));
        }
        if image.len() < 32 {
            return Err(Error::new(Code::Io, "could not read the arena header"));
        }
        let seed: u64 = match read_header(image) {
            Some(seed) => seed,
            // Not our file, or a torn header: start over rather than trust it.
            None => return Ok((SpillArena::empty(config, 1, 1), OpenAction::WriteHeader)),
        };
        // The seed is fixed per arena: an existing file keeps its own.
        let mut kept = config;
        kept.seed = seed;
        let mut arena = SpillArena::empty(kept, 0, 0);
        let at: usize = arena.recover(image, seed);
        proof {
            contents::lemma_agree_recovered(image@, seed);
        }
        if (at as u64) < file_len {
            arena.counted.recovered_torn = 1;
            return Ok((arena, OpenAction::Truncate(at as u64)));
        }
        Ok((arena, OpenAction::Keep))
    }

    /// Scans records, keeping the intact prefix. Returns where it ends.
    fn recover(&mut self, image: &[u8], seed: u64) -> (end: usize)
        requires
            old(self).wf(),
            old(self).index@ == Seq::<Slot>::empty(),
            old(self).garbage == 0,
            old(self).write_offset == HEADER_BYTES,
            image@.len() >= 32,
        ensures
            final(self).wf(),
            final(self).config == old(self).config,
            final(self).clock == old(self).clock,
            final(self).counted == old(self).counted,
            ({
                let records = layout::records_from(image@, seed, 32);
                &&& final(self).index@ == index_of(records)
                &&& end == 32 + layout::size_of_records(records)
                &&& end <= image@.len()
                &&& final(self).write_offset == end
                &&& final(self).garbage == layout::size_of_records(records) - live_bytes(
                    index_of(records),
                )
            }),
    {
        let mut at: usize = 32;
        let ghost all = layout::records_from(image@, seed, 32);
        let ghost mut seen: Seq<Record> = Seq::empty();
        let mut more = true;
        assert(seen + all =~= all);
        while more
            invariant
                32 <= at <= image@.len(),
                at == 32 + layout::size_of_records(seen),
                self.write_offset == at,
                self.wf(),
                self.index@ == index_of(seen),
                self.garbage == layout::size_of_records(seen) - live_bytes(self.index@),
                self.config == old(self).config,
                self.clock == old(self).clock,
                self.counted == old(self).counted,
                more ==> seen + layout::records_from(image@, seed, at as int) == all,
                !more ==> seen == all,
            decreases image@.len() - at + if more { 1int } else { 0int },
        {
            assert(image.len() == image@.len());
            match read_record(image, seed, at) {
                None => {
                    more = false;
                    assert(seen + layout::records_from(image@, seed, at as int) =~= seen);
                },
                Some(record) => {
                    let ghost next = seen.push(record);
                    proof {
                        lemma_with_slot_bytes(self.index@, slot_of(record, 0));
                        lemma_distinct_with(self.index@, slot_of(record, 0));
                        lemma_live_bytes_nat(with_slot(self.index@, slot_of(record, 0)));
                        assert(next.drop_last() =~= seen);
                        let rest = layout::records_from(image@, seed, at + 24 + record.len);
                        assert(seen + (seq![record] + rest) =~= next + rest);
                    }
                    at = at + 24 + record.len as usize;
                    self.write_offset = at as u64;
                    // A later record for the same key wins; the older one
                    // becomes garbage.
                    let replaced: u64 = self.store(
                        Slot {
                            key: record.key,
                            entry: IndexEntry {
                                offset: record.offset,
                                len: record.len,
                                checksum: record.checksum,
                                last_used: 0,
                            },
                        },
                    );
                    self.garbage = self.garbage + replaced;
                    proof {
                        seen = next;
                    }
                },
            }
        }
        at
    }

    /// Where a key stands in the index.
    fn find(&self, key: u64) -> (r: Option<usize>)
        ensures
            match position(self.index@, key) {
                Some(i) => r matches Some(j) && j == i,
                None => r is None,
            },
    {
        let mut n: usize = self.index.len();
        assert(self.index@.take(n as int) =~= self.index@);
        while n > 0
            invariant
                n <= self.index@.len(),
                position(self.index@.take(n as int), key) == position(self.index@, key),
            decreases n,
        {
            assert(self.index@.take(n as int).drop_last() =~= self.index@.take(n - 1));
            if self.index[n - 1].key == key {
                return Some(n - 1);
            }
            n = n - 1;
        }
        None
    }

    /// Puts a slot into the index. Returns the bytes of the record it replaces.
    fn store(&mut self, slot: Slot) -> (replaced: u64)
        requires
            old(self).wf(),
            slot.entry.len > 0,
            slot.entry.offset + 24 + slot.entry.len <= old(self).write_offset,
        ensures
            final(self).wf(),
            final(self).index@ == with_slot(old(self).index@, slot),
            replaced == live_bytes(old(self).index@) + 24 + slot.entry.len - live_bytes(
                final(self).index@,
            ),
            final(self).config == old(self).config,
            final(self).clock == old(self).clock,
            final(self).counted == old(self).counted,
            final(self).garbage == old(self).garbage,
            final(self).write_offset == old(self).write_offset,
    {
        proof {
            lemma_position(self.index@, slot.key);
            lemma_distinct_with(self.index@, slot);
        }
        match self.find(slot.key) {
            None => {
                self.index.push(slot);
                assert(self.index@.drop_last() =~= old(self).index@);
                0
            },
            Some(i) => {
                proof {
                    lemma_live_bytes_update(self.index@, i as int, slot);
                }
                let replaced: u64 = RECORD_HEADER_BYTES + self.index[i].entry.len as u64;
                self.index.set(i, slot);
                replaced
            },
        }
    }
}

/// What putting a slot in does to the bytes on disk.
pub proof fn lemma_with_slot_bytes(index: Seq<Slot>, slot: Slot)
    ensures
        live_bytes(with_slot(index, slot)) <= live_bytes(index) + 24 + slot.entry.len,
{
    lemma_position(index, slot.key);
    match position(index, slot.key) {
        None => {
            assert(index.push(slot).drop_last() =~= index);
        },
        Some(i) => {
            lemma_live_bytes_update(index, i, slot);
        },
    }
}

impl SpillArena {
    /// The live bytes, added up where no index overflows.
    fn recompute_wide(&self) -> (n: u128)
        ensures
            n == live_bytes(self.index@),
            n <= self.index@.len() * 0x1_0000_0100,
    {
        let mut n: u128 = 0;
        let mut i: usize = 0;
        while i < self.index.len()
            invariant
                i <= self.index@.len(),
                n == live_bytes(self.index@.take(i as int)),
                n <= i * 0x1_0000_0100,
            decreases self.index@.len() - i,
        {
            assert(self.index@.take(i + 1).drop_last() =~= self.index@.take(i as int));
            n = n + RECORD_HEADER_BYTES as u128 + self.index[i].entry.len as u128;
            i += 1;
        }
        assert(self.index@.take(i as int) =~= self.index@);
        n
    }

    fn recompute_bytes(&self) -> (n: u64)
        requires
            live_bytes(self.index@) <= u64::MAX,
        ensures
            n == live_bytes(self.index@),
    {
        self.recompute_wide() as u64
    }

    /// Whether every counter has room for an operation on `needed` bytes.
    pub fn headroom(&self, needed: u64) -> (r: bool)
        ensures
            r == self.has_headroom(needed as int),
    {
        let live: u128 = self.recompute_wide();
        let entries: usize = self.index.len();
        let max: u128 = u64::MAX as u128;
        live + needed as u128 <= max && self.garbage as u128 + live <= max
            && self.counted.evictions as u128 + entries as u128 <= max
            && self.counted.evicted_bytes as u128 + live <= max && self.write_offset as u128
            + needed as u128 <= max && self.clock < u64::MAX && self.counted.hits < u64::MAX
            && self.counted.misses < u64::MAX && self.counted.corrupt < u64::MAX
            && self.counted.errors < u64::MAX && self.counted.compactions < u64::MAX
    }

    pub fn stats(&self) -> (s: ArenaStats)
        requires
            live_bytes(self.index@) <= u64::MAX,
        ensures
            s == (ArenaStats {
                entries: self.index@.len() as u64,
                bytes: live_bytes(self.index@) as u64,
                garbage_bytes: self.garbage,
                ..self.counted
            }),
    {
        let mut s = self.counted;
        s.entries = self.index.len() as u64;
        s.bytes = self.recompute_bytes();
        s.garbage_bytes = self.garbage;
        s
    }

    pub fn contains(&self, key: u64) -> (r: bool)
        ensures
            r == lookup(self.index@, key) is Some,
    {
        self.find(key).is_some()
    }

    pub fn len(&self) -> (n: usize)
        ensures
            n == self.index@.len(),
    {
        self.index.len()
    }

    pub fn is_empty(&self) -> (r: bool)
        ensures
            r == (self.index@.len() == 0),
    {
        self.index.len() == 0
    }

    /// The directory and the file of the arena.
    pub fn path(&self) -> (r: (&str, &str))
        ensures
            r.0@ == self.config.dir@,
            r.1@ == self.config.file_name@,
    {
        self.config.path()
    }

    /// The slot used longest ago.
    fn find_oldest(&self) -> (i: usize)
        requires
            self.index@.len() > 0,
        ensures
            i == oldest(self.index@),
            i < self.index@.len(),
    {
        let mut best: usize = 0;
        let mut n: usize = 1;
        while n < self.index.len()
            invariant
                1 <= n <= self.index@.len(),
                best < n,
                best == oldest(self.index@.take(n as int)),
            decreases self.index@.len() - n,
        {
            assert(self.index@.take(n + 1).drop_last() =~= self.index@.take(n as int));
            if self.index[n].entry.last_used < self.index[best].entry.last_used {
                best = n;
            }
            n += 1;
        }
        assert(self.index@.take(n as int) =~= self.index@);
        best
    }

    /// Drops least-recently-used entries until `needed` bytes fit under the cap.
    pub fn evict_for(&mut self, needed: u64)
        requires
            old(self).wf(),
            old(self).has_headroom(needed as int),
        ensures
            final(self).wf(),
            final(self).index@ == if old(self).config.max_bytes == 0 {
                old(self).index@
            } else {
                evicted(old(self).index@, needed, old(self).config.max_bytes)
            },
            ({
                let gone = live_bytes(old(self).index@) - live_bytes(final(self).index@);
                &&& gone >= 0
                &&& final(self).garbage == old(self).garbage + gone
                &&& final(self).counted == (ArenaStats {
                    evictions: (old(self).counted.evictions + old(self).index@.len() - final(self).index@.len()) as u64,
                    evicted_bytes: (old(self).counted.evicted_bytes + gone) as u64,
                    ..old(self).counted
                })
            }),
            final(self).config == old(self).config,
            final(self).clock == old(self).clock,
            final(self).write_offset == old(self).write_offset,
            final(self).has_headroom(needed as int),
            forall|file: Seq<u8>, last: Map<u64, Seq<u8>>| #[trigger]
                old(self).keeps(file, last) ==> final(self).keeps(file, last),
    {
        let cap: u64 = self.config.max_bytes;
        if cap == 0 {
            return;
        }
        let mut current: u64 = self.recompute_bytes();
        while self.index.len() > 0 && current + needed > cap
            invariant
                cap != 0,
                cap == self.config.max_bytes,
                self.wf(),
                self.config == old(self).config,
                self.clock == old(self).clock,
                self.write_offset == old(self).write_offset,
                old(self).has_headroom(needed as int),
                self.index@.len() <= old(self).index@.len(),
                current == live_bytes(self.index@),
                current <= live_bytes(old(self).index@),
                evicted(self.index@, needed, cap) == evicted(old(self).index@, needed, cap),
                self.garbage == old(self).garbage + live_bytes(old(self).index@) - current,
                self.counted == (ArenaStats {
                    evictions: (old(self).counted.evictions + old(self).index@.len()
                        - self.index@.len()) as u64,
                    evicted_bytes: (old(self).counted.evicted_bytes + live_bytes(old(self).index@)
                        - current) as u64,
                    ..old(self).counted
                }),
            decreases self.index@.len(),
        {
            let i: usize = self.find_oldest();
            proof {
                lemma_live_bytes_remove(self.index@, i as int);
                lemma_live_bytes_nat(self.index@.remove(i as int));
                lemma_distinct_remove(self.index@, i as int);
            }
            let slot: Slot = self.index.remove(i);
            let bytes: u64 = RECORD_HEADER_BYTES + slot.entry.len as u64;
            current = current - bytes;
            self.counted.evictions = self.counted.evictions + 1;
            self.counted.evicted_bytes = self.counted.evicted_bytes + bytes;
            self.garbage = self.garbage + bytes;
        }
        proof {
            laws::law_eviction_honours_the_cap(old(self).index@, needed, cap);
            assert forall|file: Seq<u8>, last: Map<u64, Seq<u8>>| #[trigger]
                old(self).keeps(file, last) implies self.keeps(file, last) by {
                lemma_keeps_fewer(*old(self), *self, file, last);
            }
        }
    }

    /// Makes room for a payload and readies its record for writing. A record that
    /// the cap leaves no room for even in an empty arena is refused.
    ///
    /// Room is made before anything is written, so a full arena cannot produce a
    /// torn record as part of normal operation. [`SpillArena::commit`] takes the
    /// record in once it is written.
    pub fn put(&mut self, key: u64, payload: &[u8]) -> (r: Result<PendingPut, Error>)
        requires
            old(self).wf(),
            payload@.len() <= u32::MAX,
            old(self).has_headroom(24 + payload@.len() as int),
        ensures
            final(self).wf(),
            r is Err <==> payload@.len() == 0 || old(self).is_over_cap(payload@.len() as int),
            r matches Err(e) ==> {
                &&& if payload@.len() == 0 {
                    e.says(Code::InvalidArgument, "refusing to cache an empty payload"@)
                } else {
                    e.says(Code::BudgetExceeded, "the payload does not fit under the arena's cap"@)
                }
                &&& *final(self) == *old(self)
            },
            r matches Ok(pending) ==> {
                &&& pending.bytes@ == layout::record_of(key, payload@, old(self).config.seed)
                &&& pending.record == (Record {
                    key,
                    offset: old(self).write_offset,
                    len: payload@.len() as u32,
                    checksum: layout::checksum_of(payload@, old(self).config.seed),
                })
                &&& final(self).index@ == if old(self).config.max_bytes == 0 {
                    old(self).index@
                } else {
                    evicted(
                        old(self).index@,
                        (24 + payload@.len()) as u64,
                        old(self).config.max_bytes,
                    )
                }
                &&& ({
                    let gone = live_bytes(old(self).index@) - live_bytes(final(self).index@);
                    &&& final(self).garbage == old(self).garbage + gone
                    &&& final(self).counted == (ArenaStats {
                        evictions: (old(self).counted.evictions + old(self).index@.len() - final(self).index@.len()) as u64,
                        evicted_bytes: (old(self).counted.evicted_bytes + gone) as u64,
                        ..old(self).counted
                    })
                })
                &&& final(self).config == old(self).config
                &&& final(self).clock == old(self).clock
                &&& final(self).write_offset == old(self).write_offset
                &&& final(self).has_headroom(24 + payload@.len() as int)
                &&& final(self).has_room_for(24 + payload@.len() as int)
                &&& pending.holds(payload@, final(self).config.seed)
            },
            forall|file: Seq<u8>, last: Map<u64, Seq<u8>>| #[trigger]
                old(self).keeps(file, last) ==> final(self).keeps(file, last),
    {
        if payload.len() == 0 {
            return Err(Error::new(Code::InvalidArgument, "refusing to cache an empty payload"));
        }
        let cap: u64 = self.config.max_bytes;
        if cap != 0 && RECORD_HEADER_BYTES + payload.len() as u64 > cap {
            return Err(
                Error::new(Code::BudgetExceeded, "the payload does not fit under the arena's cap"),
            );
        }
        proof {
            laws::law_eviction_honours_the_cap(self.index@, (24 + payload@.len()) as u64, cap);
        }
        let checksum: u64 = verify(payload, self.config.seed);
        self.evict_for(RECORD_HEADER_BYTES + payload.len() as u64);
        let record = Record {
            key,
            offset: self.write_offset,
            len: payload.len() as u32,
            checksum,
        };
        Ok(PendingPut { record, bytes: record_bytes(key, payload, checksum) })
    }

    /// Takes a record in that was written, or counts that it could not be.
    /// Returns how many bytes it takes on disk.
    pub fn commit(&mut self, pending: &PendingPut, written: bool) -> (r: Result<u64, Error>)
        requires
            old(self).wf(),
            pending.record.len > 0,
            pending.record.offset == old(self).write_offset,
            old(self).has_headroom(24 + pending.record.len),
        ensures
            final(self).wf(),
            final(self).config == old(self).config,
            r is Ok <==> written,
            r matches Ok(n) ==> {
                &&& n == 24 + pending.record.len
                &&& final(self).index@ == with_slot(
                    old(self).index@,
                    slot_of(pending.record, old(self).clock),
                )
                &&& final(self).write_offset == old(self).write_offset + n
                &&& final(self).clock == old(self).clock + 1
                &&& final(self).garbage == old(self).garbage + live_bytes(old(self).index@) + n
                    - live_bytes(final(self).index@)
                &&& final(self).counted == old(self).counted
                &&& old(self).has_room_for(n as int) ==> final(self).has_room_for(0)
                &&& forall|file: Seq<u8>, last: Map<u64, Seq<u8>>, payload: Seq<u8>, after: Seq<u8>|
                    #![trigger old(self).keeps(file, last), pending.holds(payload, old(self).config.seed), contents::lands(file, old(self).write_offset as int, pending.bytes@, after)]
                    old(self).keeps(file, last) && old(self).has_room_for(n as int)
                        && pending.holds(payload, old(self).config.seed) && contents::lands(
                        file,
                        old(self).write_offset as int,
                        pending.bytes@,
                        after,
                    ) ==> final(self).keeps(after, last.insert(pending.record.key, payload))
            },
            r matches Err(e) ==> {
                &&& e.says(Code::Io, "spill write failed"@)
                &&& final(self).counted == (ArenaStats {
                    errors: (old(self).counted.errors + 1) as u64,
                    ..old(self).counted
                })
                &&& final(self).index@ == old(self).index@
                &&& final(self).write_offset == old(self).write_offset
                &&& final(self).clock == old(self).clock
                &&& final(self).garbage == old(self).garbage
                &&& forall|file: Seq<u8>, last: Map<u64, Seq<u8>>, torn: Seq<u8>|
                    #![trigger old(self).keeps(file, last), torn.take(old(self).write_offset as int)]
                    old(self).keeps(file, last) && old(self).write_offset <= torn.len()
                        && torn.take(old(self).write_offset as int) == file.take(
                        old(self).write_offset as int,
                    ) ==> final(self).keeps(torn, last)
            },
    {
        if !written {
            self.counted.errors = self.counted.errors + 1;
            proof {
                assert forall|file: Seq<u8>, last: Map<u64, Seq<u8>>, torn: Seq<u8>|
                    #![trigger old(self).keeps(file, last), torn.take(old(self).write_offset as int)]
                    old(self).keeps(file, last) && old(self).write_offset <= torn.len()
                        && torn.take(old(self).write_offset as int) == file.take(
                        old(self).write_offset as int,
                    ) implies self.keeps(torn, last) by {
                    contents::law_a_torn_write_changes_nothing(
                        self.index@,
                        self.write_offset as int,
                        self.config.seed,
                        file,
                        torn,
                        last,
                    );
                }
            }
            return Err(Error::new(Code::Io, "spill write failed"));
        }
        let needed: u64 = RECORD_HEADER_BYTES + pending.record.len as u64;
        let slot = Slot {
            key: pending.record.key,
            entry: IndexEntry {
                offset: pending.record.offset,
                len: pending.record.len,
                checksum: pending.record.checksum,
                last_used: self.clock,
            },
        };
        proof {
            lemma_replaced_bytes(self.index@, slot);
            lemma_with_slot_bytes(self.index@, slot);
        }
        self.write_offset = self.write_offset + needed;
        let replaced: u64 = self.store(slot);
        self.garbage = self.garbage + replaced;
        self.clock = self.clock + 1;
        proof {
            let seed = self.config.seed;
            let at = old(self).write_offset as int;
            assert forall|file: Seq<u8>, last: Map<u64, Seq<u8>>, payload: Seq<u8>, after: Seq<u8>|
                #![trigger old(self).keeps(file, last), pending.holds(payload, seed), contents::lands(file, at, pending.bytes@, after)]
                old(self).keeps(file, last) && old(self).has_room_for(needed as int)
                    && pending.holds(payload, seed) && contents::lands(
                    file,
                    at,
                    pending.bytes@,
                    after,
                ) implies self.keeps(after, last.insert(pending.record.key, payload)) by {
                contents::law_a_written_record_is_what_was_put_last(
                    old(self).index@,
                    at,
                    seed,
                    file,
                    last,
                    after,
                    pending.record.key,
                    payload,
                    old(self).clock,
                );
            }
        }
        Ok(needed)
    }

    /// Looks a key up, and marks it as used. `out` is cleared first, so that a miss
    /// hands nothing out.
    pub fn get(&mut self, key: u64, out: &mut Vec<u8>) -> (r: Lookup)
        requires
            old(self).wf(),
            old(self).has_headroom(0),
        ensures
            final(out)@ == Seq::<u8>::empty(),
            final(self).wf(),
            final(self).config == old(self).config,
            final(self).clock == old(self).clock,
            final(self).garbage == old(self).garbage,
            final(self).write_offset == old(self).write_offset,
            live_bytes(final(self).index@) == live_bytes(old(self).index@),
            match lookup(old(self).index@, key) {
                None => {
                    &&& r == Lookup::Miss
                    &&& final(self).index@ == old(self).index@
                    &&& final(self).counted == (ArenaStats {
                        misses: (old(self).counted.misses + 1) as u64,
                        ..old(self).counted
                    })
                },
                Some(entry) => {
                    &&& r matches Lookup::Read(at, n) && at == entry.offset + 24 && n == entry.len
                    &&& final(self).index@ == with_slot(
                        old(self).index@,
                        (Slot { key, entry: IndexEntry { last_used: old(self).clock, ..entry } }),
                    )
                    &&& lookup(final(self).index@, key) == Some(
                        IndexEntry { last_used: old(self).clock, ..entry },
                    )
                    &&& final(self).counted == old(self).counted
                    &&& forall|file: Seq<u8>, last: Map<u64, Seq<u8>>| #[trigger]
                        old(self).keeps(file, last) ==> {
                            let at = entry.offset + 24;
                            &&& at + entry.len <= file.len()
                            &&& last.contains_key(key)
                            &&& file.subrange(at, at + entry.len) == last[key]
                        }
                },
            },
            forall|file: Seq<u8>, last: Map<u64, Seq<u8>>| #[trigger]
                old(self).keeps(file, last) ==> final(self).keeps(file, last),
    {
        out.clear();
        proof {
            lemma_position(self.index@, key);
        }
        match self.find(key) {
            None => {
                self.counted.misses = self.counted.misses + 1;
                Lookup::Miss
            },
            Some(i) => {
                let mut slot: Slot = self.index[i];
                slot.entry.last_used = self.clock;
                proof {
                    lemma_distinct_with(self.index@, slot);
                    laws::law_a_put_changes_one_key(self.index@, slot, key);
                    lemma_live_bytes_update(self.index@, i as int, slot);
                }
                self.index.set(i, slot);
                proof {
                    let index = old(self).index@;
                    assert forall|file: Seq<u8>, last: Map<u64, Seq<u8>>| #[trigger]
                        old(self).keeps(file, last) implies self.keeps(file, last) && {
                        let entry = index[i as int].entry;
                        let at = entry.offset + 24;
                        &&& at + entry.len <= file.len()
                        &&& last.contains_key(key)
                        &&& file.subrange(at, at + entry.len) == last[key]
                    } by {
                        contents::law_a_held_key_reads_back_as_last_put(
                            index,
                            self.write_offset as int,
                            self.config.seed,
                            file,
                            last,
                            i as int,
                        );
                        assert forall|k: int| 0 <= k < self.index@.len() implies exists|j: int|
                            0 <= j < index.len() && record_of_slot(#[trigger] index[j])
                                == record_of_slot(#[trigger] self.index@[k]) by {
                            assert(record_of_slot(index[k]) == record_of_slot(self.index@[k]));
                        }
                        contents::lemma_agree_fewer(
                            index,
                            self.index@,
                            self.write_offset as int,
                            self.config.seed,
                            file,
                            last,
                        );
                    }
                }
                Lookup::Read(slot.entry.offset + RECORD_HEADER_BYTES, slot.entry.len)
            },
        }
    }

    /// Finishes a lookup with the bytes that were read, or with none when they
    /// could not be. `out` is cleared first. Bytes that do not have the entry's
    /// checksum are never handed out: the entry is dropped instead.
    pub fn finish_get(&mut self, key: u64, read: Option<&[u8]>, out: &mut Vec<u8>) -> (hit: Hit)
        requires
            old(self).wf(),
            old(self).has_headroom(0),
            lookup(old(self).index@, key) is Some,
        ensures
            final(self).wf(),
            final(self).config == old(self).config,
            final(self).garbage == old(self).garbage,
            final(self).write_offset == old(self).write_offset,
            live_bytes(final(self).index@) <= live_bytes(old(self).index@),
            ({
                let entry = lookup(old(self).index@, key)->0;
                match read {
                    Some(buf) if layout::checksum_of(buf@, old(self).config.seed)
                        == entry.checksum => {
                        &&& hit == Hit::Fresh
                        &&& final(out)@ == buf@
                        &&& final(self).index@ == old(self).index@
                        &&& final(self).clock == old(self).clock + 1
                        &&& final(self).counted == (ArenaStats {
                            hits: (old(self).counted.hits + 1) as u64,
                            ..old(self).counted
                        })
                    },
                    _ => {
                        &&& hit == Hit::Corrupt
                        &&& final(out)@ == Seq::<u8>::empty()
                        &&& final(self).index@ == without(old(self).index@, key)
                        &&& final(self).clock == old(self).clock
                        &&& final(self).counted == (ArenaStats {
                            corrupt: (old(self).counted.corrupt + 1) as u64,
                            ..old(self).counted
                        })
                    },
                }
            }),
            hit == Hit::Corrupt ==> lookup(final(self).index@, key) is None,
            forall|file: Seq<u8>, last: Map<u64, Seq<u8>>| #[trigger]
                old(self).keeps(file, last) ==> {
                    &&& final(self).keeps(file, last)
                    &&& last.contains_key(key)
                    &&& read is Some && read->0@ == last[key] ==> hit == Hit::Fresh && final(out)@
                        == last[key]
                },
    {
        out.clear();
        proof {
            lemma_position(self.index@, key);
        }
        let i: usize = match self.find(key) {
            Some(i) => i,
            None => return Hit::Miss,
        };
        proof {
            assert forall|file: Seq<u8>, last: Map<u64, Seq<u8>>| #[trigger]
                old(self).keeps(file, last) implies last.contains_key(key)
                && layout::checksum_of(last[key], self.config.seed)
                == self.index@[i as int].entry.checksum by {
                contents::law_a_held_key_reads_back_as_last_put(
                    self.index@,
                    self.write_offset as int,
                    self.config.seed,
                    file,
                    last,
                    i as int,
                );
            }
        }
        if let Some(buf) = read {
            if verify(buf, self.config.seed) == self.index[i].entry.checksum {
                out.extend_from_slice(buf);
                assert(out@ =~= buf@);
                self.clock = self.clock + 1;
                self.counted.hits = self.counted.hits + 1;
                return Hit::Fresh;
            }
        }
        proof {
            lemma_distinct_remove(self.index@, i as int);
            lemma_live_bytes_remove(self.index@, i as int);
        }
        self.index.remove(i);
        self.counted.corrupt = self.counted.corrupt + 1;
        proof {
            laws::law_a_drop_forgets_one_key(old(self).index@, i as int, key);
            assert forall|j: int| 0 <= j < self.index@.len() implies exists|k: int|
                0 <= k < old(self).index@.len() && #[trigger] old(self).index@[k]
                    == #[trigger] self.index@[j] by {
                assert(old(self).index@[if j < i { j } else { j + 1 }] == self.index@[j]);
            }
            assert forall|file: Seq<u8>, last: Map<u64, Seq<u8>>| #[trigger]
                old(self).keeps(file, last) implies self.keeps(file, last) by {
                lemma_keeps_fewer(*old(self), *self, file, last);
            }
        }
        Hit::Corrupt
    }
}

/// An arena that holds fewer of the slots is as sound as it was.
proof fn lemma_keeps_fewer(
    before: SpillArena,
    after: SpillArena,
    file: Seq<u8>,
    last: Map<u64, Seq<u8>>,
)
    requires
        before.keeps(file, last),
        laws::comes_from(after.index@, before.index@),
        after.config == before.config,
        after.write_offset == before.write_offset,
        live_bytes(after.index@) <= live_bytes(before.index@),
    ensures
        after.keeps(file, last),
{
    let (index, fewer) = (before.index@, after.index@);
    assert forall|i: int| 0 <= i < fewer.len() implies exists|j: int|
        0 <= j < index.len() && record_of_slot(#[trigger] index[j]) == record_of_slot(
            #[trigger] fewer[i],
        ) by {
        let j = choose|j: int| 0 <= j < index.len() && #[trigger] index[j] == fewer[i];
        assert(record_of_slot(index[j]) == record_of_slot(fewer[i]));
    }
    contents::lemma_agree_fewer(
        index,
        fewer,
        before.write_offset as int,
        before.config.seed,
        file,
        last,
    );
}

pub proof fn lemma_live_bytes_prefix(index: Seq<Slot>, n: int)
    requires
        0 <= n <= index.len(),
    ensures
        live_bytes(index.take(n)) <= live_bytes(index),
    decreases index.len(),
{
    if n == index.len() {
        assert(index.take(n) =~= index);
    } else {
        lemma_live_bytes_prefix(index.drop_last(), n);
        assert(index.drop_last().take(n) =~= index.take(n));
    }
}

/// Putting a slot in makes at most the live bytes garbage.
proof fn lemma_replaced_bytes(index: Seq<Slot>, slot: Slot)
    ensures
        live_bytes(index) + 24 + slot.entry.len - live_bytes(with_slot(index, slot)) <= live_bytes(
            index,
        ),
{
    lemma_position(index, slot.key);
    lemma_live_bytes_nat(index);
    match position(index, slot.key) {
        None => {
            assert(index.push(slot).drop_last() =~= index);
        },
        Some(i) => {
            lemma_live_bytes_update(index, i, slot);
            lemma_live_bytes_remove(index, i);
            lemma_live_bytes_nat(index.remove(i));
        },
    }
}

/// A compaction under way: the new index, and how long the new file is.
pub struct Compaction {
    pub index: Vec<Slot>,
    pub offset: u64,
    /// How many slots of the arena have been looked at.
    pub done: usize,
    /// The new file so far.
    pub image: Ghost<Seq<u8>>,
}

/// Where a compaction can go wrong.
#[derive(Clone, Copy, Debug, PartialEq, Eq, Structural)]
pub enum CompactFault {
    /// The new file could not be made.
    Create,
    /// Its header could not be written.
    Header,
    /// A record could not be written.
    Record,
    /// It could not be brought to the disk.
    Sync,
    /// The old file could not be moved out of the way.
    Rotate,
    /// The new file could not be moved into its place.
    Install,
    /// It could not be opened there.
    Reopen,
}

impl CompactFault {
    /// What the fault is reported as.
    pub open spec fn said(self) -> Seq<char> {
        match self {
            CompactFault::Create => "could not create the compaction file"@,
            CompactFault::Header | CompactFault::Record => "compaction write failed"@,
            CompactFault::Sync => "compaction sync failed"@,
            CompactFault::Rotate => "could not rotate the arena"@,
            CompactFault::Install => "could not install the compacted arena"@,
            CompactFault::Reopen => "could not reopen the arena"@,
        }
    }
}

/// The records of the slots.
pub open spec fn records_of_slots(index: Seq<Slot>) -> Seq<Record> {
    index.map_values(|slot: Slot| record_of_slot(slot))
}

impl Compaction {
    /// The new file holds the header and a record for each slot, in order, and
    /// nothing else; and the slots are those of keys already looked at.
    pub open spec fn wf(&self, arena: &SpillArena) -> bool {
        let seed = arena.config.seed;
        &&& self.image@.len() == self.offset
        &&& self.offset >= 32
        &&& within(self.index@, self.offset as int)
        &&& self.image@.take(32) == layout::header_of(seed)
        &&& laws::intact_from(self.image@, seed, 32)
        &&& layout::records_from(self.image@, seed, 32) == records_of_slots(self.index@)
        &&& self.done <= arena.index@.len()
        &&& distinct(self.index@)
        &&& filled(self.index@)
        &&& forall|j: int|
            0 <= j < self.index@.len() ==> (position(
                arena.index@,
                (#[trigger] self.index@[j]).key,
            ) matches Some(p) && p < self.done)
    }

    /// The new file holds what was last put under each of its keys, and takes no more
    /// bytes than the records it was made of.
    pub open spec fn copies(&self, arena: &SpillArena, last: Map<u64, Seq<u8>>) -> bool {
        &&& forall|j: int|
            0 <= j < self.index@.len() ==> {
                &&& last.contains_key((#[trigger] self.index@[j]).key)
                &&& laws::payload_of(self.image@, self.index@[j].entry)
                    == last[self.index@[j].key]
            }
        &&& live_bytes(self.index@) <= live_bytes(arena.index@.take(self.done as int))
    }
}

impl SpillArena {
    /// Begins a rewrite of the file with only the live entries, unless there is
    /// no garbage to drop. The bytes are the start of the new file.
    ///
    /// Called between frames, never from the render path: a compaction is bound
    /// by the disk.
    pub fn compact(&self) -> (r: Option<(Compaction, Vec<u8>)>)
        requires
            self.wf(),
        ensures
            r is None <==> self.garbage == 0,
            r matches Some((c, bytes)) ==> {
                &&& c.wf(self)
                &&& c.done == 0
                &&& c.index@ == Seq::<Slot>::empty()
                &&& bytes@ == layout::header_of(self.config.seed)
                &&& c.image@ == bytes@
                &&& forall|last: Map<u64, Seq<u8>>| #[trigger] c.copies(self, last)
            },
    {
        if self.garbage == 0 {
            return None;
        }
        let bytes = self.header();
        proof {
            layout::lemma_header_len(self.config.seed);
            laws::lemma_at_the_end(bytes@, self.config.seed);
            assert(bytes@.take(32) =~= bytes@);
            assert(records_of_slots(Seq::empty()) =~= Seq::empty());
        }
        let c = Compaction {
            index: Vec::new(),
            offset: HEADER_BYTES,
            done: 0,
            image: Ghost(bytes@),
        };
        Some((c, bytes))
    }

    /// Which payload the compaction needs next: its offset and its length.
    pub fn compact_read(&self, c: &Compaction) -> (r: Option<(u64, u32)>)
        requires
            self.wf(),
            c.wf(self),
        ensures
            r is Some <==> c.done < self.index@.len(),
            r matches Some((offset, len)) ==> {
                &&& offset == self.index@[c.done as int].entry.offset + 24
                &&& len == self.index@[c.done as int].entry.len
            },
    {
        if c.done < self.index.len() {
            let entry: IndexEntry = self.index[c.done].entry;
            Some((entry.offset + RECORD_HEADER_BYTES, entry.len))
        } else {
            None
        }
    }

    /// Takes the payload that was read, or notes that it could not be. A payload
    /// with the entry's checksum is kept: the bytes are to be appended to the
    /// new file. Any other is dropped and counted.
    pub fn compact_entry(&mut self, c: &mut Compaction, read: Option<&[u8]>) -> (r: Option<
        Vec<u8>,
    >)
        requires
            old(self).wf(),
            old(c).wf(old(self)),
            old(c).done < old(self).index@.len(),
            read matches Some(buf) ==> buf@.len() == old(self).index@[old(
                c,
            ).done as int].entry.len,
            old(c).offset + 24 + old(self).index@[old(c).done as int].entry.len <= u64::MAX,
            old(self).counted.corrupt < u64::MAX,
        ensures
            final(self).wf(),
            final(c).wf(final(self)),
            final(c).done == old(c).done + 1,
            final(self).config == old(self).config,
            final(self).index@ == old(self).index@,
            final(self).clock == old(self).clock,
            final(self).garbage == old(self).garbage,
            final(self).write_offset == old(self).write_offset,
            ({
                let slot = old(self).index@[old(c).done as int];
                let seed = old(self).config.seed;
                match read {
                    Some(buf) if layout::checksum_of(buf@, seed) == slot.entry.checksum => {
                        &&& r matches Some(bytes) && bytes@ == layout::record_of(
                            slot.key,
                            buf@,
                            seed,
                        ) && final(c).image@ == old(c).image@ + bytes@
                        &&& final(c).index@ == old(c).index@.push(
                            Slot {
                                key: slot.key,
                                entry: IndexEntry { offset: old(c).offset, ..slot.entry },
                            },
                        )
                        &&& laws::payload_of(
                            final(c).image@,
                            final(c).index@[old(c).index@.len() as int].entry,
                        ) == buf@
                        &&& final(self).counted == old(self).counted
                    },
                    _ => {
                        &&& r is None
                        &&& final(c).image@ == old(c).image@
                        &&& final(c).index@ == old(c).index@
                        &&& final(c).offset == old(c).offset
                        &&& final(self).counted == (ArenaStats {
                            corrupt: (old(self).counted.corrupt + 1) as u64,
                            ..old(self).counted
                        })
                    },
                }
            }),
            forall|file: Seq<u8>, last: Map<u64, Seq<u8>>| #[trigger]
                old(self).keeps(file, last) ==> {
                    let slot = old(self).index@[old(c).done as int];
                    &&& final(self).keeps(file, last)
                    &&& old(c).copies(old(self), last) && (read is Some ==> read->0@
                        == last[slot.key]) ==> final(c).copies(final(self), last)
                    &&& read is Some && read->0@ == last[slot.key] ==> r is Some
                },
    {
        let slot: Slot = self.index[c.done];
        let ghost seed = self.config.seed;
        assert(self.index.len() == self.index@.len());
        if let Some(buf) = read {
            if verify(buf, self.config.seed) == slot.entry.checksum {
                let kept = Slot {
                    key: slot.key,
                    entry: IndexEntry {
                        offset: c.offset,
                        len: slot.entry.len,
                        checksum: slot.entry.checksum,
                        last_used: slot.entry.last_used,
                    },
                };
                let bytes = record_bytes(slot.key, buf, slot.entry.checksum);
                proof {
                    assert(filled(self.index@));
                    assert(slot.entry.len > 0);
                    laws::lemma_append(c.image@, seed, 32, slot.key, buf@);
                    assert((c.image@ + bytes@).take(32) =~= c.image@.take(32));
                    lemma_position_is(self.index@, c.done as int);
                    assert(records_of_slots(c.index@.push(kept)) =~= records_of_slots(
                        c.index@,
                    ).push(record_of_slot(kept)));
                    assert forall|j: int| 0 <= j < c.index@.len() implies (
                    #[trigger] c.index@[j]).key != slot.key by {
                        assert(position(self.index@, c.index@[j].key) matches Some(p) && p
                            < c.done);
                    }
                }
                c.index.push(kept);
                c.offset = c.offset + RECORD_HEADER_BYTES + slot.entry.len as u64;
                c.done = c.done + 1;
                c.image = Ghost(c.image@ + bytes@);
                proof {
                    assert forall|file: Seq<u8>, last: Map<u64, Seq<u8>>| #[trigger]
                        old(self).keeps(file, last) && old(c).copies(old(self), last) && buf@
                        == last[slot.key] implies c.copies(self, last) by {
                        contents::law_a_held_key_reads_back_as_last_put(
                            self.index@,
                            self.write_offset as int,
                            seed,
                            file,
                            last,
                            old(c).done as int,
                        );
                        assert(c.image@.take(old(c).image@.len() as int) =~= old(c).image@);
                        assert(c.index@.drop_last() =~= old(c).index@);
                        lemma_copies_grow(*old(c), *c, *self, last);
                    }
                }
                return Some(bytes);
            }
        }
        self.counted.corrupt = self.counted.corrupt + 1;
        c.done = c.done + 1;
        proof {
            assert(self.index@.take(c.done as int).drop_last() =~= self.index@.take(
                old(c).done as int,
            ));
            assert forall|file: Seq<u8>, last: Map<u64, Seq<u8>>| #[trigger]
                old(self).keeps(file, last) implies last.contains_key(slot.key)
                && layout::checksum_of(last[slot.key], seed) == slot.entry.checksum by {
                contents::law_a_held_key_reads_back_as_last_put(
                    self.index@,
                    self.write_offset as int,
                    seed,
                    file,
                    last,
                    old(c).done as int,
                );
            }
        }
        None
    }

    /// What a compaction that went wrong is reported as. Only a record that could
    /// not be written is counted, and the arena goes on with the old file.
    pub fn compact_failed(&mut self, fault: CompactFault) -> (e: Error)
        requires
            old(self).wf(),
            old(self).counted.errors < u64::MAX,
        ensures
            e.says(Code::Io, fault.said()),
            final(self).wf(),
            final(self).counted == (ArenaStats {
                errors: if fault == CompactFault::Record {
                    (old(self).counted.errors + 1) as u64
                } else {
                    old(self).counted.errors
                },
                ..old(self).counted
            }),
            final(self).index@ == old(self).index@,
            final(self).config == old(self).config,
            final(self).clock == old(self).clock,
            final(self).garbage == old(self).garbage,
            final(self).write_offset == old(self).write_offset,
            forall|file: Seq<u8>, last: Map<u64, Seq<u8>>| #[trigger]
                old(self).keeps(file, last) ==> final(self).keeps(file, last),
    {
        if fault == CompactFault::Record {
            self.counted.errors = self.counted.errors + 1;
        }
        let said = match fault {
            CompactFault::Create => "could not create the compaction file",
            CompactFault::Header | CompactFault::Record => "compaction write failed",
            CompactFault::Sync => "compaction sync failed",
            CompactFault::Rotate => "could not rotate the arena",
            CompactFault::Install => "could not install the compacted arena",
            CompactFault::Reopen => "could not reopen the arena",
        };
        Error::new(Code::Io, said)
    }

    /// Goes over to the new file, which has taken the place of the old one.
    /// Returns how many bytes that saved.
    pub fn install(&mut self, c: Compaction, before: u64, after: u64) -> (saved: u64)
        requires
            old(self).wf(),
            c.wf(old(self)),
            old(self).counted.compactions < u64::MAX,
        ensures
            final(self).wf(),
            final(self).index@ == c.index@,
            final(self).write_offset == c.offset,
            final(self).garbage == 0,
            final(self).clock == old(self).clock,
            final(self).config == old(self).config,
            final(self).counted == (ArenaStats {
                compactions: (old(self).counted.compactions + 1) as u64,
                ..old(self).counted
            }),
            saved == num::imax(before - after, 0),
            forall|file: Seq<u8>, last: Map<u64, Seq<u8>>| #[trigger]
                old(self).keeps(file, last) && c.copies(old(self), last) ==> final(self).keeps(
                    c.image@,
                    last,
                ),
    {
        proof {
            assert forall|file: Seq<u8>, last: Map<u64, Seq<u8>>| #[trigger]
                old(self).keeps(file, last) && c.copies(old(self), last) implies {
                &&& contents::agree(
                    c.index@,
                    c.offset as int,
                    old(self).config.seed,
                    c.image@,
                    last,
                )
                &&& live_bytes(c.index@) <= live_bytes(old(self).index@)
            } by {
                contents::lemma_agree_compacted(
                    c.index@,
                    old(self).config.seed,
                    c.image@,
                    last,
                );
                lemma_live_bytes_prefix(old(self).index@, c.done as int);
            }
        }
        self.index = c.index;
        self.write_offset = c.offset;
        self.garbage = 0;
        self.counted.compactions = self.counted.compactions + 1;
        before.saturating_sub(after)
    }
}

/// A compaction that takes one more record over copies as before.
proof fn lemma_copies_grow(
    before: Compaction,
    after: Compaction,
    arena: SpillArena,
    last: Map<u64, Seq<u8>>,
)
    requires
        before.wf(&arena),
        before.copies(&arena, last),
        before.done < arena.index@.len(),
        after.done == before.done + 1,
        after.image@.len() >= before.image@.len(),
        after.image@.take(before.image@.len() as int) == before.image@,
        after.index@.len() == before.index@.len() + 1,
        after.index@.drop_last() == before.index@,
        after.index@.last().entry.len == arena.index@[before.done as int].entry.len,
        last.contains_key(after.index@.last().key),
        laws::payload_of(after.image@, after.index@.last().entry) == last[after.index@.last().key],
    ensures
        after.copies(&arena, last),
{
    let n = before.image@.len() as int;
    assert forall|j: int| 0 <= j < after.index@.len() implies {
        &&& last.contains_key((#[trigger] after.index@[j]).key)
        &&& laws::payload_of(after.image@, after.index@[j].entry) == last[after.index@[j].key]
    } by {
        if j < before.index@.len() {
            assert(after.index@.drop_last()[j] == before.index@[j]);
            let entry = before.index@[j].entry;
            assert(laws::payload_of(after.image@, entry) =~= laws::payload_of(
                before.image@,
                entry,
            )) by {
                assert forall|i: int| 0 <= i < n implies #[trigger] before.image@[i]
                    == after.image@[i] by {
                    assert(after.image@.take(n)[i] == after.image@[i]);
                }
            }
        }
    }
    assert(arena.index@.take(after.done as int).drop_last() =~= arena.index@.take(
        before.done as int,
    ));
}

/// Where the arena lives when the host does not say, part by part, from what the
/// environment names: the spill directory of its own, the per-user cache of
/// either kind, the home directory. Never anywhere else.
pub open spec fn spill_dir_of(
    own: Option<Seq<char>>,
    local: Option<Seq<char>>,
    cache: Option<Seq<char>>,
    home: Option<Seq<char>>,
) -> Seq<Seq<char>> {
    match (own, local, cache, home) {
        (Some(dir), _, _, _) if dir.len() > 0 => seq![dir],
        (_, Some(dir), _, _) => seq![dir, "ReconL"@, "cache"@],
        (_, _, Some(dir), _) => seq![dir, "reconl"@],
        (_, _, _, Some(dir)) => seq![dir, ".cache"@, "reconl"@],
        _ => seq![".reconl-spill"@],
    }
}

/// The view of an optional string.
pub open spec fn view_of(s: Option<String>) -> Option<Seq<char>> {
    match s {
        Some(s) => Some(s@),
        None => None,
    }
}

/// Where the arena lives when the host does not say: the parts of the path.
pub fn default_spill_dir(
    own: Option<String>,
    local: Option<String>,
    cache: Option<String>,
    home: Option<String>,
) -> (parts: Vec<String>)
    ensures
        parts@.map_values(|s: String| s@) == spill_dir_of(
            view_of(own),
            view_of(local),
            view_of(cache),
            view_of(home),
        ),
{
    let ghost want = spill_dir_of(view_of(own), view_of(local), view_of(cache), view_of(home));
    let mut parts: Vec<String> = Vec::new();
    if let Some(dir) = own {
        if !dir.as_str().is_empty() {
            parts.push(dir);
            assert(parts@.map_values(|s: String| s@) =~= want);
            return parts;
        }
    }
    if let Some(dir) = local {
        parts.push(dir);
        parts.push(String::from_str("ReconL"));
        parts.push(String::from_str("cache"));
    } else if let Some(dir) = cache {
        parts.push(dir);
        parts.push(String::from_str("reconl"));
    } else if let Some(dir) = home {
        parts.push(dir);
        parts.push(String::from_str(".cache"));
        parts.push(String::from_str("reconl"));
    } else {
        parts.push(String::from_str(".reconl-spill"));
    }
    assert(parts@.map_values(|s: String| s@) =~= want);
    parts
}

} // verus!
