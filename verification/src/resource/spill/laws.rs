//! What the arena promises of its file.
use crate::bytes;
use crate::resource::spill::arena;
use crate::resource::spill::arena::{IndexEntry, Slot};
use crate::resource::spill::layout;
use crate::resource::spill::layout::Record;
use vstd::prelude::*;

verus! {

/// Every byte from `at` on belongs to an intact record.
pub open spec fn intact_from(file: Seq<u8>, seed: u64, at: int) -> bool {
    &&& 0 <= at <= file.len()
    &&& at + layout::size_of_records(layout::records_from(file, seed, at)) == file.len()
}

pub proof fn lemma_sizes_add(a: Seq<Record>, b: Seq<Record>)
    ensures
        layout::size_of_records(a + b) == layout::size_of_records(a) + layout::size_of_records(b),
    decreases b.len(),
{
    if b.len() == 0 {
        assert(a + b =~= a);
    } else {
        lemma_sizes_add(a, b.drop_last());
        assert((a + b).drop_last() =~= a + b.drop_last());
    }
}

/// What stands in front of a byte does not depend on what stands behind it.
proof fn lemma_record_prefix(file: Seq<u8>, longer: Seq<u8>, seed: u64, at: int)
    requires
        file.len() <= longer.len(),
        longer.take(file.len() as int) == file,
        layout::record_at(file, seed, at) is Some,
    ensures
        layout::record_at(longer, seed, at) == layout::record_at(file, seed, at),
{
    let n = file.len() as int;
    assert forall|i: int| 0 <= i < n implies #[trigger] file[i] == longer[i] by {
        assert(longer.take(n)[i] == longer[i]);
    }
    let len = bytes::le32_at(file, at + 4);
    assert(longer.subrange(at + 24, at + 24 + len) =~= file.subrange(at + 24, at + 24 + len));
}

/// Four bytes of a part of the file are read where the part stands.
proof fn lemma_part32(file: Seq<u8>, at: int, part: Seq<u8>, k: int, v: u32)
    requires
        0 <= at,
        at + part.len() <= file.len(),
        file.subrange(at, at + part.len()) == part,
        0 <= k <= part.len() - 4,
        part.subrange(k, k + 4) == bytes::le32(v),
    ensures
        bytes::le32_at(file, at + k) == v,
{
    assert(file.subrange(at + k, at + k + 4) =~= part.subrange(k, k + 4));
    bytes::lemma_le32(v, file, at + k);
}

/// Eight bytes of a part of the file are read where the part stands.
proof fn lemma_part64(file: Seq<u8>, at: int, part: Seq<u8>, k: int, v: u64)
    requires
        0 <= at,
        at + part.len() <= file.len(),
        file.subrange(at, at + part.len()) == part,
        0 <= k <= part.len() - 8,
        part.subrange(k, k + 8) == bytes::le64(v),
    ensures
        bytes::le64_at(file, at + k) == v,
{
    assert(file.subrange(at + k, at + k + 8) =~= part.subrange(k, k + 8));
    bytes::lemma_le64(v, file, at + k);
}

/// Where the fields of a record stand in it.
proof fn lemma_record_fields(key: u64, payload: Seq<u8>, seed: u64)
    requires
        0 < payload.len() <= u32::MAX,
    ensures
        ({
            let r = layout::record_of(key, payload, seed);
            let n = payload.len() as int;
            &&& r.len() == 24 + n
            &&& r.subrange(0, 4) == bytes::le32(layout::RECORD_MAGIC)
            &&& r.subrange(4, 8) == bytes::le32(n as u32)
            &&& r.subrange(8, 16) == bytes::le64(key)
            &&& r.subrange(16, 24) == bytes::le64(layout::checksum_of(payload, seed))
            &&& r.subrange(24, 24 + n) == payload
        }),
{
    reveal(layout::record_head);
    let r = layout::record_of(key, payload, seed);
    let n = payload.len() as int;
    let sum = layout::checksum_of(payload, seed);
    layout::lemma_record_len(key, payload, seed);
    assert(r.subrange(0, 4) =~= bytes::le32(layout::RECORD_MAGIC));
    assert(r.subrange(4, 8) =~= bytes::le32(n as u32));
    assert(r.subrange(8, 16) =~= bytes::le64(key));
    assert(r.subrange(16, 24) =~= bytes::le64(sum));
    assert(r.subrange(24, 24 + n) =~= payload);
}

/// A written record is read as it was written.
proof fn lemma_record_written(file: Seq<u8>, seed: u64, at: int, key: u64, payload: Seq<u8>)
    requires
        0 < payload.len() <= u32::MAX,
        0 <= at,
        at + 24 + payload.len() <= file.len() <= u64::MAX,
        file.subrange(at, at + 24 + payload.len()) == layout::record_of(key, payload, seed),
    ensures
        layout::record_at(file, seed, at) == Some(
            Record {
                key,
                offset: at as u64,
                len: payload.len() as u32,
                checksum: layout::checksum_of(payload, seed),
            },
        ),
        file.subrange(at + 24, at + 24 + payload.len()) == payload,
{
    let n = payload.len() as int;
    let r = layout::record_of(key, payload, seed);
    lemma_record_fields(key, payload, seed);
    lemma_part32(file, at, r, 0, layout::RECORD_MAGIC);
    lemma_part32(file, at, r, 4, n as u32);
    lemma_part64(file, at, r, 8, key);
    lemma_part64(file, at, r, 16, layout::checksum_of(payload, seed));
    assert(file.subrange(at + 24, at + 24 + n) =~= r.subrange(24, 24 + n));
}

/// Intact records stay what they are when more is appended, and if what follows
/// is not an intact record, nothing else is found.
pub proof fn lemma_torn_tail(file: Seq<u8>, longer: Seq<u8>, seed: u64, at: int)
    requires
        intact_from(file, seed, at),
        file.len() <= longer.len(),
        longer.take(file.len() as int) == file,
    ensures
        layout::records_from(longer, seed, at) == layout::records_from(file, seed, at)
            + layout::records_from(longer, seed, file.len() as int),
    decreases file.len() - at,
{
    let all = layout::records_from(file, seed, at);
    match layout::record_at(file, seed, at) {
        None => {
            assert(all =~= Seq::empty());
            assert(all + layout::records_from(longer, seed, at) =~= layout::records_from(
                longer,
                seed,
                at,
            ));
        },
        Some(r) => {
            let next = at + 24 + r.len;
            let rest = layout::records_from(file, seed, next);
            lemma_sizes_add(seq![r], rest);
            assert(seq![r].drop_last() =~= Seq::empty());
            reveal_with_fuel(layout::size_of_records, 2);
            lemma_record_prefix(file, longer, seed, at);
            lemma_torn_tail(file, longer, seed, next);
            let tail = layout::records_from(longer, seed, file.len() as int);
            assert(seq![r] + (rest + tail) =~= (seq![r] + rest) + tail);
        },
    }
}

/// There is no record where the file ends.
pub proof fn lemma_at_the_end(file: Seq<u8>, seed: u64)
    ensures
        layout::records_from(file, seed, file.len() as int) == Seq::<Record>::empty(),
{
    assert(layout::records_from(file, seed, file.len() as int) =~= Seq::empty());
}

/// An append adds one record to an intact file.
pub proof fn lemma_append(file: Seq<u8>, seed: u64, at: int, key: u64, payload: Seq<u8>)
    requires
        intact_from(file, seed, at),
        0 < payload.len() <= u32::MAX,
        file.len() + 24 + payload.len() <= u64::MAX,
    ensures
        ({
            let longer = file + layout::record_of(key, payload, seed);
            let record = Record {
                key,
                offset: file.len() as u64,
                len: payload.len() as u32,
                checksum: layout::checksum_of(payload, seed),
            };
            &&& intact_from(longer, seed, at)
            &&& layout::records_from(longer, seed, at) == layout::records_from(
                file,
                seed,
                at,
            ).push(record)
            &&& longer.subrange(record.offset + 24, record.offset + 24 + record.len) == payload
        }),
{
    let r = layout::record_of(key, payload, seed);
    let longer = file + r;
    let n = file.len() as int;
    assert(longer.take(n) =~= file);
    layout::lemma_record_len(key, payload, seed);
    assert(longer.subrange(n, n + 24 + payload.len()) =~= r);
    lemma_record_written(longer, seed, n, key, payload);
    lemma_torn_tail(file, longer, seed, at);
    let record = layout::record_at(longer, seed, n)->0;
    let end = longer.len() as int;
    lemma_at_the_end(longer, seed);
    let old_records = layout::records_from(file, seed, at);
    assert(layout::records_from(longer, seed, n) =~= seq![record]);
    assert(old_records + seq![record] =~= old_records.push(record));
    assert(old_records.push(record).drop_last() =~= old_records);
}

/// The file that a sequence of puts leaves behind.
pub open spec fn log_of(seed: u64, puts: Seq<(u64, Seq<u8>)>) -> Seq<u8>
    decreases puts.len(),
{
    if puts.len() == 0 {
        layout::header_of(seed)
    } else {
        log_of(seed, puts.drop_last()) + layout::record_of(puts.last().0, puts.last().1, seed)
    }
}

/// Payloads that can be put: not empty, and of a length the format can hold.
pub open spec fn can_be_put(puts: Seq<(u64, Seq<u8>)>) -> bool {
    forall|i: int| 0 <= i < puts.len() ==> 0 < (#[trigger] puts[i]).1.len() <= u32::MAX
}

/// The records of the puts.
pub open spec fn records_of(seed: u64, puts: Seq<(u64, Seq<u8>)>) -> Seq<Record>
    decreases puts.len(),
{
    if puts.len() == 0 {
        Seq::empty()
    } else {
        records_of(seed, puts.drop_last()).push(
            Record {
                key: puts.last().0,
                offset: log_of(seed, puts.drop_last()).len() as u64,
                len: puts.last().1.len() as u32,
                checksum: layout::checksum_of(puts.last().1, seed),
            },
        )
    }
}

pub proof fn lemma_header(seed: u64, file: Seq<u8>)
    requires
        file.len() >= 32,
        file.take(32) == layout::header_of(seed),
    ensures
        layout::header_stands(file, seed),
{
    reveal(layout::header_front);
    let h = layout::header_of(seed);
    let front = layout::header_front(seed);
    layout::lemma_header_len(seed);
    assert(h.subrange(0, 4) =~= bytes::le32(layout::RCLS_MAGIC));
    assert(h.subrange(4, 8) =~= bytes::le32(layout::FORMAT_VERSION));
    assert(h.subrange(16, 24) =~= bytes::le64(seed));
    assert(h.subrange(24, 32) =~= bytes::le64(crate::hash::xxh64(seed, front)));
    assert(file.subrange(0, 32) =~= h);
    lemma_part32(file, 0, h, 0, layout::RCLS_MAGIC);
    lemma_part32(file, 0, h, 4, layout::FORMAT_VERSION);
    lemma_part64(file, 0, h, 16, seed);
    lemma_part64(file, 0, h, 24, crate::hash::xxh64(seed, front));
    assert(file.take(24) =~= front) by {
        assert(file.take(24) =~= file.take(32).take(24));
        assert(h.take(24) =~= front);
    }
}

/// A log is intact from its first record on.
pub proof fn lemma_log(seed: u64, puts: Seq<(u64, Seq<u8>)>)
    requires
        can_be_put(puts),
        log_of(seed, puts).len() <= u64::MAX,
    ensures
        log_of(seed, puts).len() >= 32,
        log_of(seed, puts).take(32) == layout::header_of(seed),
        intact_from(log_of(seed, puts), seed, 32),
        layout::records_from(log_of(seed, puts), seed, 32) == records_of(seed, puts),
    decreases puts.len(),
{
    let file = log_of(seed, puts);
    if puts.len() == 0 {
        layout::lemma_header_len(seed);
        lemma_at_the_end(file, seed);
        assert(file.take(32) =~= layout::header_of(seed));
    } else {
        let before = puts.drop_last();
        assert forall|i: int| 0 <= i < before.len() implies 0 < (#[trigger] before[i]).1.len()
            <= u32::MAX by {
            assert(before[i] == puts[i]);
        }
        assert(puts[puts.len() - 1] == puts.last());
        let (key, payload) = puts.last();
        let log = log_of(seed, before);
        let record = layout::record_of(key, payload, seed);
        layout::lemma_record_len(key, payload, seed);
        assert(file == log + record);
        assert(0 < payload.len() <= u32::MAX);
        lemma_log(seed, before);
        lemma_append(log, seed, 32, key, payload);
        assert((log + record).take(32) =~= log.take(32));
    }
}

/// Recovery: however the file ends after the last whole record - cleanly, or in
/// the middle of a write - every record before that point is found, and nothing
/// else is. A process killed mid-write leaves a smaller cache, never a wrong one.
pub proof fn law_recovery_keeps_the_intact_prefix(
    seed: u64,
    puts: Seq<(u64, Seq<u8>)>,
    tail: Seq<u8>,
)
    requires
        can_be_put(puts),
        log_of(seed, puts).len() <= u64::MAX,
        layout::record_at(log_of(seed, puts) + tail, seed, log_of(seed, puts).len() as int) is None,
    ensures
        ({
            let file = log_of(seed, puts) + tail;
            &&& layout::header_stands(file, seed)
            &&& layout::records_from(file, seed, 32) == records_of(seed, puts)
            &&& 32 + layout::size_of_records(records_of(seed, puts)) == log_of(seed, puts).len()
        }),
{
    let log = log_of(seed, puts);
    let file = log + tail;
    lemma_log(seed, puts);
    assert(file.take(32) =~= log.take(32));
    assert(file.take(log.len() as int) =~= log);
    lemma_header(seed, file);
    lemma_torn_tail(log, file, seed, 32);
    assert(layout::records_from(file, seed, log.len() as int) =~= Seq::empty());
    assert(records_of(seed, puts) + Seq::<Record>::empty() =~= records_of(seed, puts));
}

/// What was put is what is on disk: the payload of every record found is, byte
/// for byte, the one that was put.
pub proof fn law_a_record_holds_what_was_put(
    seed: u64,
    puts: Seq<(u64, Seq<u8>)>,
    tail: Seq<u8>,
    i: int,
)
    requires
        can_be_put(puts),
        log_of(seed, puts).len() <= u64::MAX,
        0 <= i < puts.len(),
    ensures
        records_of(seed, puts).len() == puts.len(),
        ({
            let r = records_of(seed, puts)[i];
            &&& r.key == puts[i].0
            &&& r.offset + 24 + r.len <= log_of(seed, puts).len()
            &&& (log_of(seed, puts) + tail).subrange(r.offset + 24, r.offset + 24 + r.len)
                == puts[i].1
            &&& layout::checksum_of(puts[i].1, seed) == r.checksum
        }),
    decreases puts.len(),
{
    let before = puts.drop_last();
    let file = log_of(seed, puts) + tail;
    assert forall|k: int| 0 <= k < before.len() implies 0 < (#[trigger] before[k]).1.len()
        <= u32::MAX by {
        assert(before[k] == puts[k]);
    }
    assert(puts[puts.len() - 1] == puts.last());
    lemma_log(seed, before);
    let last = layout::record_of(puts.last().0, puts.last().1, seed);
    layout::lemma_record_len(puts.last().0, puts.last().1, seed);
    if before.len() > 0 {
        law_a_record_holds_what_was_put(seed, before, last + tail, 0);
    }
    if i == puts.len() - 1 {
        let at = log_of(seed, before).len() as int;
        assert(file.subrange(at, at + 24 + puts.last().1.len()) =~= last);
        assert(file.subrange(at + 24, at + 24 + puts.last().1.len()) =~= last.subrange(
            24,
            last.len() as int,
        ));
        assert(last.subrange(24, last.len() as int) =~= puts.last().1);
    } else {
        law_a_record_holds_what_was_put(seed, before, last + tail, i);
        assert(log_of(seed, before) + (last + tail) =~= file);
    }
}

/// Putting a slot in changes what is known of its key, and of no other.
pub proof fn law_a_put_changes_one_key(index: Seq<Slot>, slot: Slot, key: u64)
    requires
        arena::distinct(index),
    ensures
        arena::lookup(arena::with_slot(index, slot), key) == if key == slot.key {
            Some(slot.entry)
        } else {
            arena::lookup(index, key)
        },
{
    let next = arena::with_slot(index, slot);
    arena::lemma_position(index, slot.key);
    arena::lemma_position(index, key);
    arena::lemma_position(next, key);
    arena::lemma_distinct_with(index, slot);
    match arena::position(index, key) {
        Some(i) => {
            assert(next[i].key == key);
            arena::lemma_position_is(next, i);
        },
        None => {
            if key == slot.key {
                assert(next[index.len() as int].key == key);
            } else {
                match arena::position(next, key) {
                    Some(j) => {
                        assert(next[j].key == key);
                        if j < index.len() {
                            assert(index[j].key != key);
                        }
                    },
                    None => {},
                }
            }
        },
    }
}

/// Dropping a slot forgets its key, and no other.
pub proof fn law_a_drop_forgets_one_key(index: Seq<Slot>, i: int, key: u64)
    requires
        arena::distinct(index),
        0 <= i < index.len(),
    ensures
        arena::lookup(index.remove(i), key) == if key == index[i].key {
            None
        } else {
            arena::lookup(index, key)
        },
{
    let next = index.remove(i);
    arena::lemma_position(index, key);
    arena::lemma_position(next, key);
    arena::lemma_distinct_remove(index, i);
    if key == index[i].key {
        match arena::position(next, key) {
            Some(j) => {
                assert(next[j] == index[if j < i { j } else { j + 1 }]);
            },
            None => {},
        }
    } else {
        match arena::position(index, key) {
            Some(j) => {
                let k = if j < i { j } else { j - 1 };
                assert(next[k] == index[j]);
                arena::lemma_position_is(next, k);
            },
            None => {
                match arena::position(next, key) {
                    Some(j) => {
                        assert(next[j] == index[if j < i { j } else { j + 1 }]);
                    },
                    None => {},
                }
            },
        }
    }
}

/// A read that finds its payload corrupt forgets the key, so that the next lookup of
/// it is a miss, and no other key.
pub proof fn law_a_corrupt_read_forgets_its_key_alone(index: Seq<Slot>, key: u64, other: u64)
    requires
        arena::distinct(index),
    ensures
        arena::lookup(arena::without(index, key), other) == if other == key {
            None
        } else {
            arena::lookup(index, other)
        },
{
    arena::lemma_position(index, key);
    match arena::position(index, key) {
        Some(i) => law_a_drop_forgets_one_key(index, i, other),
        None => {},
    }
}

/// The last record for `key`, if there is one.
pub open spec fn newest(records: Seq<Record>, key: u64) -> Option<Record>
    decreases records.len(),
{
    if records.len() == 0 {
        None
    } else if records.last().key == key {
        Some(records.last())
    } else {
        newest(records.drop_last(), key)
    }
}

/// The newest record of a key wins, and a key without one is not in the index.
pub proof fn law_the_newest_record_wins(records: Seq<Record>, key: u64)
    ensures
        arena::distinct(arena::index_of(records)),
        arena::lookup(arena::index_of(records), key) == match newest(records, key) {
            Some(r) => Some(arena::slot_of(r, 0).entry),
            None => None::<IndexEntry>,
        },
    decreases records.len(),
{
    if records.len() > 0 {
        let before = records.drop_last();
        law_the_newest_record_wins(before, key);
        let slot = arena::slot_of(records.last(), 0);
        arena::lemma_distinct_with(arena::index_of(before), slot);
        law_a_put_changes_one_key(arena::index_of(before), slot, key);
    }
}

/// The payload the file holds for an index entry.
pub open spec fn payload_of(file: Seq<u8>, entry: IndexEntry) -> Seq<u8> {
    file.subrange(entry.offset + 24, entry.offset + 24 + entry.len)
}

/// Every record of a scan stands where it says.
pub proof fn lemma_scan_stands(file: Seq<u8>, seed: u64, at: int, i: int)
    requires
        file.len() <= u64::MAX,
        0 <= i < layout::records_from(file, seed, at).len(),
    ensures
        ({
            let r = layout::records_from(file, seed, at)[i];
            layout::record_at(file, seed, r.offset as int) == Some(r)
        }),
    decreases file.len() - at,
{
    let r = layout::record_at(file, seed, at)->0;
    if i > 0 {
        lemma_scan_stands(file, seed, at + 24 + r.len, i - 1);
    }
}

/// Eviction drops some of the slots and changes none.
pub open spec fn comes_from(kept: Seq<Slot>, index: Seq<Slot>) -> bool {
    forall|i: int|
        0 <= i < kept.len() ==> exists|j: int|
            0 <= j < index.len() && #[trigger] index[j] == #[trigger] kept[i]
}

/// Eviction honours the cap: afterwards the bytes fit, unless nothing is left to
/// drop. It drops nothing that fits, and the least recently used first: whatever
/// is dropped was not used after anything that is kept.
pub proof fn law_eviction_honours_the_cap(index: Seq<Slot>, needed: u64, cap: u64)
    requires
        arena::distinct(index),
    ensures
        ({
            let kept = arena::evicted(index, needed, cap);
            &&& kept.len() == 0 || arena::live_bytes(kept) + needed <= cap
            &&& arena::live_bytes(index) + needed <= cap ==> kept == index
            &&& arena::distinct(kept)
            &&& comes_from(kept, index)
            &&& forall|i: int, j: int|
                0 <= i < kept.len() && 0 <= j < index.len() && arena::lookup(
                    kept,
                    index[j].key,
                ) is None ==> (#[trigger] index[j]).entry.last_used <= (
                #[trigger] kept[i]).entry.last_used
        }),
    decreases index.len(),
{
    let kept = arena::evicted(index, needed, cap);
    if index.len() == 0 || arena::live_bytes(index) + needed <= cap {
        assert forall|i: int| 0 <= i < kept.len() implies exists|j: int|
            0 <= j < index.len() && #[trigger] index[j] == #[trigger] kept[i] by {
            assert(index[i] == kept[i]);
        }
        assert forall|i: int, j: int|
            0 <= i < kept.len() && 0 <= j < index.len() && arena::lookup(kept, index[j].key)
                is None implies (#[trigger] index[j]).entry.last_used <= (
        #[trigger] kept[i]).entry.last_used by {
            arena::lemma_position_is(index, j);
        }
    } else {
        let o = arena::oldest(index);
        arena::lemma_oldest(index);
        arena::lemma_distinct_remove(index, o);
        let rest = index.remove(o);
        law_eviction_honours_the_cap(rest, needed, cap);
        assert forall|i: int| 0 <= i < kept.len() implies exists|j: int|
            0 <= j < index.len() && #[trigger] index[j] == #[trigger] kept[i] by {
            let j = choose|j: int| 0 <= j < rest.len() && #[trigger] rest[j] == kept[i];
            assert(rest[j] == index[if j < o { j } else { j + 1 }]);
        }
        assert forall|i: int, j: int|
            0 <= i < kept.len() && 0 <= j < index.len() && arena::lookup(kept, index[j].key)
                is None implies (#[trigger] index[j]).entry.last_used <= (
        #[trigger] kept[i]).entry.last_used by {
            let m = choose|m: int| 0 <= m < rest.len() && #[trigger] rest[m] == kept[i];
            assert(rest[m] == index[if m < o { m } else { m + 1 }]);
            if j != o {
                let k = if j < o { j } else { j - 1 };
                assert(rest[k] == index[j]);
            }
        }
    }
}

/// The cap is hard: once room is made for a record that fits under it and the
/// record is taken in, the live bytes are within the cap, whatever was there.
pub proof fn law_a_put_stays_within_the_cap(
    index: Seq<Slot>,
    record: Record,
    clock: u64,
    cap: u64,
)
    requires
        arena::distinct(index),
        24 + record.len <= cap,
    ensures
        arena::live_bytes(
            arena::with_slot(
                arena::evicted(index, (24 + record.len) as u64, cap),
                arena::slot_of(record, clock),
            ),
        ) <= cap,
{
    let needed = (24 + record.len) as u64;
    law_eviction_honours_the_cap(index, needed, cap);
    arena::lemma_with_slot_bytes(
        arena::evicted(index, needed, cap),
        arena::slot_of(record, clock),
    );
}

/// A compacted file is as good as the one it replaces: reopened, it gives the
/// very records the compaction kept, with nothing torn and no garbage.
pub proof fn law_a_compacted_file_reopens_as_it_was_installed(
    c: arena::Compaction,
    of: arena::SpillArena,
)
    requires
        c.wf(&of),
    ensures
        layout::header_stands(c.image@, of.config.seed),
        ({
            let records = layout::records_from(c.image@, of.config.seed, 32);
            &&& 32 + layout::size_of_records(records) == c.offset
            &&& records == arena::records_of_slots(c.index@)
        }),
{
    lemma_header(of.config.seed, c.image@);
}

/// What was used last goes last: a key that was just put or read is evicted only when
/// nothing else is left.
pub proof fn law_a_key_just_used_is_evicted_last(
    index: Seq<Slot>,
    slot: Slot,
    needed: u64,
    cap: u64,
)
    requires
        arena::distinct(index),
        forall|i: int|
            0 <= i < index.len() ==> (#[trigger] index[i]).entry.last_used < slot.entry.last_used,
    ensures
        ({
            let kept = arena::evicted(arena::with_slot(index, slot), needed, cap);
            kept.len() > 0 ==> arena::lookup(kept, slot.key) == Some(slot.entry)
        }),
{
    let all = arena::with_slot(index, slot);
    let kept = arena::evicted(all, needed, cap);
    arena::lemma_distinct_with(index, slot);
    arena::lemma_position(index, slot.key);
    law_eviction_honours_the_cap(all, needed, cap);
    law_a_put_changes_one_key(index, slot, slot.key);
    arena::lemma_position(all, slot.key);
    let j = arena::position(all, slot.key)->0;
    assert(all[j] == slot);
    if kept.len() > 0 {
        arena::lemma_position(kept, slot.key);
        match arena::position(kept, slot.key) {
            None => {
                let m = choose|m: int| 0 <= m < all.len() && #[trigger] all[m] == kept[0];
                assert(kept[0].key != slot.key);
                assert(all[m] != slot);
                assert(arena::lookup(kept, all[j].key) is None);
                assert(all[j].entry.last_used <= kept[0].entry.last_used);
                if m < index.len() {
                    assert(all[m] == index[m]);
                }
            },
            Some(i) => {
                let m = choose|m: int| 0 <= m < all.len() && #[trigger] all[m] == kept[i];
                arena::lemma_position_is(all, m);
            },
        }
    }
}

/// A record is laid out as the format says: its magic, the length of the payload, the
/// key and the checksum, each from its smallest byte on, and the payload behind them. A
/// file starts with its own magic, the version, eight bytes that are not used, the seed
/// and the hash of those.
pub proof fn law_a_file_and_its_records_are_laid_out_as_the_format_says(
    seed: u64,
    key: u64,
    payload: Seq<u8>,
)
    requires
        0 < payload.len() <= u32::MAX,
    ensures
        ({
            let (h, r) = (layout::header_of(seed), layout::record_of(key, payload, seed));
            let n = payload.len() as int;
            &&& h.len() == 32
            &&& h.subrange(0, 4) == bytes::le32(0x5243_4C53)
            &&& h.subrange(4, 8) == bytes::le32(1)
            &&& h.subrange(8, 16) == bytes::le64(0)
            &&& h.subrange(16, 24) == bytes::le64(seed)
            &&& h.subrange(24, 32) == bytes::le64(crate::hash::xxh64(seed, h.take(24)))
            &&& r.len() == 24 + n
            &&& r.subrange(0, 4) == bytes::le32(0x5243_4C52)
            &&& r.subrange(4, 8) == bytes::le32(n as u32)
            &&& r.subrange(8, 16) == bytes::le64(key)
            &&& r.subrange(16, 24) == bytes::le64(layout::checksum_of(payload, seed))
            &&& r.subrange(24, 24 + n) == payload
        }),
{
    reveal(layout::header_front);
    lemma_record_fields(key, payload, seed);
    layout::lemma_header_len(seed);
    let h = layout::header_of(seed);
    assert(h.subrange(0, 4) =~= bytes::le32(layout::RCLS_MAGIC));
    assert(h.subrange(4, 8) =~= bytes::le32(layout::FORMAT_VERSION));
    assert(h.subrange(8, 16) =~= bytes::le64(0));
    assert(h.subrange(16, 24) =~= bytes::le64(seed));
    assert(h.take(24) =~= layout::header_front(seed));
    assert(h.subrange(24, 32) =~= bytes::le64(
        crate::hash::xxh64(seed, layout::header_front(seed)),
    ));
}

} // verus!
