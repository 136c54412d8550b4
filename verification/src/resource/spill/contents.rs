//! What an arena and its file hold together, from one call to the next.
use crate::resource::spill::arena;
use crate::resource::spill::arena::{IndexEntry, Slot};
use crate::resource::spill::laws;
use crate::resource::spill::layout;
use crate::resource::spill::layout::Record;
use vstd::prelude::*;

verus! {

/// The payload of a record.
pub open spec fn payload_in(file: Seq<u8>, record: Record) -> Seq<u8> {
    file.subrange(record.offset + 24, record.offset + 24 + record.len)
}

/// The file is a log of whole records up to `end`, the newest record of each key
/// holds what was last put under it, and each slot of the index stands for the
/// newest record of its key. What is behind `end` is of no account.
#[verifier::opaque]
pub open spec fn agree(
    index: Seq<Slot>,
    end: int,
    seed: u64,
    file: Seq<u8>,
    last: Map<u64, Seq<u8>>,
) -> bool {
    let log = file.take(end);
    let records = layout::records_from(log, seed, 32);
    &&& 32 <= end <= file.len()
    &&& end <= u64::MAX
    &&& layout::header_stands(log, seed)
    &&& laws::intact_from(log, seed, 32)
    &&& forall|key: u64|
        (#[trigger] laws::newest(records, key)) is Some ==> {
            &&& last.contains_key(key)
            &&& payload_in(log, laws::newest(records, key)->0) == last[key]
        }
    &&& forall|i: int|
        0 <= i < index.len() ==> laws::newest(records, (#[trigger] index[i]).key) == Some(
            arena::record_of_slot(index[i]),
        )
}

/// Whole bytes were written at `at`, over whatever was there, and nothing in front
/// of it was touched.
pub open spec fn lands(file: Seq<u8>, at: int, bytes: Seq<u8>, after: Seq<u8>) -> bool {
    &&& 0 <= at <= file.len()
    &&& at + bytes.len() <= after.len()
    &&& after.take(at) == file.take(at)
    &&& after.subrange(at, at + bytes.len()) == bytes
}

/// The newest record of a key is one of the records.
proof fn lemma_newest(records: Seq<Record>, key: u64) -> (i: int)
    requires
        laws::newest(records, key) is Some,
    ensures
        0 <= i < records.len(),
        records[i] == laws::newest(records, key)->0,
        records[i].key == key,
    decreases records.len(),
{
    if records.last().key == key {
        records.len() - 1
    } else {
        lemma_newest(records.drop_last(), key)
    }
}

/// A record of a scan stands within the file, with its checksum.
proof fn lemma_newest_stands(log: Seq<u8>, seed: u64, key: u64)
    requires
        log.len() <= u64::MAX,
        laws::newest(layout::records_from(log, seed, 32), key) is Some,
    ensures
        ({
            let r = laws::newest(layout::records_from(log, seed, 32), key)->0;
            &&& r.key == key
            &&& r.len > 0
            &&& r.offset + 24 + r.len <= log.len()
            &&& layout::checksum_of(payload_in(log, r), seed) == r.checksum
        }),
{
    let i = lemma_newest(layout::records_from(log, seed, 32), key);
    laws::lemma_scan_stands(log, seed, 32, i);
}

/// Whatever the index holds reads back as it was last put.
pub proof fn law_a_held_key_reads_back_as_last_put(
    index: Seq<Slot>,
    end: int,
    seed: u64,
    file: Seq<u8>,
    last: Map<u64, Seq<u8>>,
    i: int,
)
    requires
        agree(index, end, seed, file, last),
        0 <= i < index.len(),
    ensures
        ({
            let slot = index[i];
            &&& slot.entry.offset + 24 + slot.entry.len <= end <= file.len()
            &&& last.contains_key(slot.key)
            &&& laws::payload_of(file, slot.entry) == last[slot.key]
            &&& layout::checksum_of(last[slot.key], seed) == slot.entry.checksum
        }),
{
    reveal(agree);
    let log = file.take(end);
    let slot = index[i];
    lemma_newest_stands(log, seed, slot.key);
    assert(payload_in(log, arena::record_of_slot(slot)) =~= laws::payload_of(file, slot.entry));
}

/// Fewer slots, or slots that were used since, agree with the file as well.
pub proof fn lemma_agree_fewer(
    index: Seq<Slot>,
    fewer: Seq<Slot>,
    end: int,
    seed: u64,
    file: Seq<u8>,
    last: Map<u64, Seq<u8>>,
)
    requires
        agree(index, end, seed, file, last),
        forall|i: int|
            0 <= i < fewer.len() ==> exists|j: int|
                0 <= j < index.len() && arena::record_of_slot(#[trigger] index[j])
                    == arena::record_of_slot(#[trigger] fewer[i]),
    ensures
        agree(fewer, end, seed, file, last),
{
    reveal(agree);
    let records = layout::records_from(file.take(end), seed, 32);
    assert forall|i: int| 0 <= i < fewer.len() implies laws::newest(
        records,
        (#[trigger] fewer[i]).key,
    ) == Some(arena::record_of_slot(fewer[i])) by {
        let j = choose|j: int|
            0 <= j < index.len() && arena::record_of_slot(#[trigger] index[j])
                == arena::record_of_slot(fewer[i]);
        assert(index[j].key == fewer[i].key);
    }
}

/// A write that goes wrong costs nothing that was there: whatever it leaves behind
/// the last whole record, the arena and its file agree as before.
pub proof fn law_a_torn_write_changes_nothing(
    index: Seq<Slot>,
    end: int,
    seed: u64,
    file: Seq<u8>,
    torn: Seq<u8>,
    last: Map<u64, Seq<u8>>,
)
    requires
        agree(index, end, seed, file, last),
        end <= torn.len(),
        torn.take(end) == file.take(end),
    ensures
        agree(index, end, seed, torn, last),
{
    reveal(agree);
}

/// The header is the first bytes of the file.
proof fn lemma_header_prefix(log: Seq<u8>, longer: Seq<u8>, seed: u64)
    requires
        layout::header_stands(log, seed),
        log.len() <= longer.len(),
        longer.take(log.len() as int) == log,
    ensures
        layout::header_stands(longer, seed),
{
    assert forall|i: int| 0 <= i < log.len() implies #[trigger] log[i] == longer[i] by {
        assert(longer.take(log.len() as int)[i] == longer[i]);
    }
    assert(longer.take(24) =~= log.take(24));
}

/// A record that was written is what is put last under its key, and nothing else
/// changes.
pub proof fn law_a_written_record_is_what_was_put_last(
    index: Seq<Slot>,
    end: int,
    seed: u64,
    file: Seq<u8>,
    last: Map<u64, Seq<u8>>,
    after: Seq<u8>,
    key: u64,
    payload: Seq<u8>,
    clock: u64,
)
    requires
        arena::distinct(index),
        agree(index, end, seed, file, last),
        0 < payload.len() <= u32::MAX,
        end + 24 + payload.len() <= u64::MAX,
        lands(file, end, layout::record_of(key, payload, seed), after),
    ensures
        ({
            let record = Record {
                key,
                offset: end as u64,
                len: payload.len() as u32,
                checksum: layout::checksum_of(payload, seed),
            };
            agree(
                arena::with_slot(index, arena::slot_of(record, clock)),
                end + 24 + payload.len(),
                seed,
                after,
                last.insert(key, payload),
            )
        }),
{
    reveal(agree);
    let log = file.take(end);
    let bytes = layout::record_of(key, payload, seed);
    let longer = log + bytes;
    let next_end = end + 24 + payload.len();
    layout::lemma_record_len(key, payload, seed);
    assert(after.take(next_end) =~= longer) by {
        assert forall|i: int| 0 <= i < next_end implies #[trigger] after[i] == longer[i] by {
            if i < end {
                assert(after.take(end)[i] == file.take(end)[i]);
            } else {
                assert(after.subrange(end, next_end)[i - end] == bytes[i - end]);
            }
        }
    }
    assert(longer.take(end) =~= log);
    laws::lemma_append(log, seed, 32, key, payload);
    lemma_header_prefix(log, longer, seed);
    let records = layout::records_from(log, seed, 32);
    let record = Record {
        key,
        offset: end as u64,
        len: payload.len() as u32,
        checksum: layout::checksum_of(payload, seed),
    };
    let more = records.push(record);
    assert(layout::records_from(longer, seed, 32) == more);
    assert(more.drop_last() =~= records);
    let next_last = last.insert(key, payload);
    assert forall|k: u64| (#[trigger] laws::newest(more, k)) is Some implies {
        &&& next_last.contains_key(k)
        &&& payload_in(longer, laws::newest(more, k)->0) == next_last[k]
    } by {
        if k != key {
            assert(laws::newest(more, k) == laws::newest(records, k));
            lemma_newest_stands(log, seed, k);
            let r = laws::newest(records, k)->0;
            assert(payload_in(longer, r) =~= payload_in(log, r));
        }
    }
    let slot = arena::slot_of(record, clock);
    let next = arena::with_slot(index, slot);
    arena::lemma_position(index, key);
    arena::lemma_distinct_with(index, slot);
    assert(arena::record_of_slot(slot) == record);
    assert forall|i: int| 0 <= i < next.len() implies laws::newest(more, (#[trigger] next[i]).key)
        == Some(arena::record_of_slot(next[i])) by {
        if next[i].key == key {
            match arena::position(index, key) {
                Some(p) => {
                    assert(next[p].key == key);
                },
                None => {},
            }
            assert(next[i] == slot);
        } else {
            assert(next[i] == index[i]);
            assert(laws::newest(more, next[i].key) == laws::newest(records, next[i].key));
        }
    }
}

/// A new file agrees with an arena that holds nothing.
pub proof fn lemma_agree_new(seed: u64)
    ensures
        agree(Seq::empty(), 32, seed, layout::header_of(seed), Map::empty()),
{
    reveal(agree);
    let file = layout::header_of(seed);
    layout::lemma_header_len(seed);
    assert(file.take(32) =~= file);
    laws::lemma_header(seed, file);
    laws::lemma_at_the_end(file, seed);
}

/// What the newest intact record of each key holds.
pub open spec fn payloads_in(file: Seq<u8>, seed: u64) -> Map<u64, Seq<u8>> {
    let records = layout::records_from(file, seed, 32);
    Map::new(
        |key: u64| laws::newest(records, key) is Some,
        |key: u64| payload_in(file, laws::newest(records, key)->0),
    )
}

/// Cut behind the last of its intact records, a file has the same records.
proof fn lemma_cut(file: Seq<u8>, seed: u64, at: int)
    requires
        0 <= at <= file.len(),
    ensures
        ({
            let records = layout::records_from(file, seed, at);
            let end = at + layout::size_of_records(records);
            &&& at <= end <= file.len()
            &&& layout::records_from(file.take(end), seed, at) == records
        }),
    decreases file.len() - at,
{
    let records = layout::records_from(file, seed, at);
    match layout::record_at(file, seed, at) {
        None => {
            assert(records =~= Seq::empty());
            laws::lemma_at_the_end(file.take(at), seed);
        },
        Some(r) => {
            let next = at + 24 + r.len;
            let rest = layout::records_from(file, seed, next);
            lemma_cut(file, seed, next);
            laws::lemma_sizes_add(seq![r], rest);
            assert(seq![r].drop_last() =~= Seq::empty());
            reveal_with_fuel(layout::size_of_records, 2);
            let end = next + layout::size_of_records(rest);
            let cut = file.take(end);
            lemma_record_in_cut(file, cut, seed, at);
        },
    }
}

proof fn lemma_record_in_cut(file: Seq<u8>, cut: Seq<u8>, seed: u64, at: int)
    requires
        cut.len() <= file.len(),
        file.take(cut.len() as int) == cut,
        layout::record_at(file, seed, at) is Some,
        at + 24 + layout::record_at(file, seed, at)->0.len <= cut.len(),
    ensures
        layout::record_at(cut, seed, at) == layout::record_at(file, seed, at),
{
    let n = cut.len() as int;
    assert forall|i: int| 0 <= i < n implies #[trigger] cut[i] == file[i] by {
        assert(file.take(n)[i] == file[i]);
    }
    let len = layout::record_at(file, seed, at)->0.len;
    assert(file.subrange(at + 24, at + 24 + len) =~= cut.subrange(at + 24, at + 24 + len));
}

/// A recovered arena agrees with the intact part of its file.
pub proof fn lemma_agree_recovered(file: Seq<u8>, seed: u64)
    requires
        file.len() <= u64::MAX,
        layout::header_stands(file, seed),
    ensures
        ({
            let records = layout::records_from(file, seed, 32);
            agree(
                arena::index_of(records),
                32 + layout::size_of_records(records),
                seed,
                file,
                payloads_in(file, seed),
            )
        }),
{
    reveal(agree);
    let records = layout::records_from(file, seed, 32);
    let index = arena::index_of(records);
    let end = 32 + layout::size_of_records(records);
    let log = file.take(end);
    lemma_cut(file, seed, 32);
    assert(log.take(24) =~= file.take(24));
    let last = payloads_in(file, seed);
    assert forall|key: u64| (#[trigger] laws::newest(records, key)) is Some implies {
        &&& last.contains_key(key)
        &&& payload_in(log, laws::newest(records, key)->0) == last[key]
    } by {
        lemma_newest_stands(log, seed, key);
        let r = laws::newest(records, key)->0;
        assert(payload_in(log, r) =~= payload_in(file, r));
    }
    assert forall|i: int| 0 <= i < index.len() implies laws::newest(
        records,
        (#[trigger] index[i]).key,
    ) == Some(arena::record_of_slot(index[i])) by {
        laws::law_the_newest_record_wins(records, index[i].key);
        arena::lemma_position_is(index, i);
        let r = laws::newest(records, index[i].key)->0;
        let j = lemma_newest(records, index[i].key);
    }
}

/// An arena that is opened again holds what was put: if the process that wrote the
/// file ends at any moment, a write under way or not, every key whose newest record
/// is whole reads back as it was last put.
pub proof fn law_a_reopened_arena_reads_back_what_was_put(
    index: Seq<Slot>,
    end: int,
    seed: u64,
    file: Seq<u8>,
    last: Map<u64, Seq<u8>>,
    torn: Seq<u8>,
)
    requires
        agree(index, end, seed, file, last),
        end <= torn.len() <= u64::MAX,
        torn.take(end) == file.take(end),
        layout::record_at(torn, seed, end) is None,
    ensures
        layout::header_stands(torn, seed),
        ({
            let records = layout::records_from(torn, seed, 32);
            let reopened = arena::index_of(records);
            &&& end == 32 + layout::size_of_records(records)
            &&& agree(reopened, end, seed, torn, last)
            &&& forall|i: int|
                0 <= i < index.len() ==> arena::lookup(reopened, (#[trigger] index[i]).key) == Some(
                    IndexEntry { last_used: 0, ..index[i].entry },
                )
        }),
{
    reveal(agree);
    let log = file.take(end);
    lemma_header_prefix(log, torn, seed);
    laws::lemma_torn_tail(log, torn, seed, 32);
    let records = layout::records_from(log, seed, 32);
    assert(layout::records_from(torn, seed, end) =~= Seq::empty());
    assert(records + Seq::<Record>::empty() =~= records);
    assert(layout::records_from(torn, seed, 32) == records);
    let reopened = arena::index_of(records);
    assert forall|i: int| 0 <= i < reopened.len() implies laws::newest(
        records,
        (#[trigger] reopened[i]).key,
    ) == Some(arena::record_of_slot(reopened[i])) by {
        laws::law_the_newest_record_wins(records, reopened[i].key);
        arena::lemma_position_is(reopened, i);
        let j = lemma_newest(records, reopened[i].key);
    }
    assert forall|i: int| 0 <= i < index.len() implies arena::lookup(
        reopened,
        (#[trigger] index[i]).key,
    ) == Some(IndexEntry { last_used: 0, ..index[i].entry }) by {
        laws::law_the_newest_record_wins(records, index[i].key);
    }
}

/// Of distinct slots each record is the newest of its key.
proof fn lemma_newest_of_slots(index: Seq<Slot>, key: u64)
    requires
        arena::distinct(index),
    ensures
        laws::newest(arena::records_of_slots(index), key) == match arena::position(index, key) {
            Some(i) => Some(arena::record_of_slot(index[i])),
            None => None,
        },
    decreases index.len(),
{
    let records = arena::records_of_slots(index);
    if index.len() > 0 {
        let before = index.drop_last();
        assert(records.drop_last() =~= arena::records_of_slots(before));
        lemma_newest_of_slots(before, key);
        arena::lemma_position(before, key);
    }
}

/// A compacted file agrees with the slots that it was made of.
pub proof fn lemma_agree_compacted(
    index: Seq<Slot>,
    seed: u64,
    image: Seq<u8>,
    last: Map<u64, Seq<u8>>,
)
    requires
        32 <= image.len() <= u64::MAX,
        arena::distinct(index),
        image.take(32) == layout::header_of(seed),
        laws::intact_from(image, seed, 32),
        layout::records_from(image, seed, 32) == arena::records_of_slots(index),
        forall|j: int|
            0 <= j < index.len() ==> {
                &&& last.contains_key((#[trigger] index[j]).key)
                &&& laws::payload_of(image, index[j].entry) == last[index[j].key]
            },
    ensures
        agree(index, image.len() as int, seed, image, last),
{
    reveal(agree);
    assert(image.take(image.len() as int) =~= image);
    laws::lemma_header(seed, image);
    let records = arena::records_of_slots(index);
    assert forall|key: u64| (#[trigger] laws::newest(records, key)) is Some implies {
        &&& last.contains_key(key)
        &&& payload_in(image, laws::newest(records, key)->0) == last[key]
    } by {
        lemma_newest_of_slots(index, key);
        arena::lemma_position(index, key);
    }
    assert forall|i: int| 0 <= i < index.len() implies laws::newest(
        records,
        (#[trigger] index[i]).key,
    ) == Some(arena::record_of_slot(index[i])) by {
        lemma_newest_of_slots(index, index[i].key);
        arena::lemma_position_is(index, i);
    }
}

} // verus!
