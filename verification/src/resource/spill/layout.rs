//! The bytes of an arena.
use crate::bytes;
use crate::bytes::{get_le32, get_le64, push_all, push_le32, push_le64};
use crate::hash;
use crate::hash::xxh64_seeded;
use vstd::prelude::*;

verus! {

/// "RCLS"
pub const RCLS_MAGIC: u32 = 0x5243_4C53;

/// "RCLR"
pub const RECORD_MAGIC: u32 = 0x5243_4C52;

pub const FORMAT_VERSION: u32 = 1;

pub const HEADER_BYTES: u64 = 32;

pub const RECORD_HEADER_BYTES: u64 = 24;

/// The checksum of a payload, which covers its length and its bytes.
#[verifier::opaque]
pub open spec fn checksum_of(payload: Seq<u8>, seed: u64) -> u64 {
    hash::xxh64(seed ^ 0x5243_4C53_4352_4331u64, bytes::le64(payload.len() as u64) + payload)
}

/// The checksum of a payload.
pub fn verify(payload: &[u8], seed: u64) -> (sum: u64)
    ensures
        sum == checksum_of(payload@, seed),
{
    reveal(checksum_of);
    let mut covered: Vec<u8> = Vec::new();
    push_le64(&mut covered, payload.len() as u64);
    push_all(&mut covered, payload);
    assert(covered@ =~= bytes::le64(payload@.len() as u64) + payload@);
    xxh64_seeded(seed ^ 0x5243_4C53_4352_4331, covered.as_slice())
}

/// The part of a header that its checksum covers.
#[verifier::opaque]
pub open spec fn header_front(seed: u64) -> Seq<u8> {
    bytes::le32(RCLS_MAGIC) + bytes::le32(FORMAT_VERSION) + bytes::le64(0) + bytes::le64(seed)
}

/// The header of an arena.
pub open spec fn header_of(seed: u64) -> Seq<u8> {
    header_front(seed) + bytes::le64(hash::xxh64(seed, header_front(seed)))
}

/// A header whose seed is `seed` stands at the start of the file.
pub open spec fn header_stands(file: Seq<u8>, seed: u64) -> bool {
    &&& file.len() >= 32
    &&& bytes::le32_at(file, 0) == RCLS_MAGIC
    &&& bytes::le32_at(file, 4) == FORMAT_VERSION
    &&& bytes::le64_at(file, 16) == seed
    &&& bytes::le64_at(file, 24) == hash::xxh64(seed, file.take(24))
}

pub fn header_bytes(seed: u64) -> (header: Vec<u8>)
    ensures
        header@ == header_of(seed),
        header@.len() == 32,
{
    let mut header: Vec<u8> = Vec::new();
    push_le32(&mut header, RCLS_MAGIC);
    push_le32(&mut header, FORMAT_VERSION);
    push_le64(&mut header, 0);
    push_le64(&mut header, seed);
    assert(header@ =~= header_front(seed)) by {
        reveal(header_front);
    }
    let sum: u64 = xxh64_seeded(seed, header.as_slice());
    push_le64(&mut header, sum);
    header
}

/// A record: its head and its payload.
pub open spec fn record_of(key: u64, payload: Seq<u8>, seed: u64) -> Seq<u8> {
    record_head(key, payload.len() as u32, checksum_of(payload, seed)) + payload
}

/// The head of a record.
#[verifier::opaque]
pub open spec fn record_head(key: u64, len: u32, checksum: u64) -> Seq<u8> {
    bytes::le32(RECORD_MAGIC) + bytes::le32(len) + bytes::le64(key) + bytes::le64(checksum)
}

pub fn record_bytes(key: u64, payload: &[u8], checksum: u64) -> (record: Vec<u8>)
    requires
        payload@.len() <= u32::MAX,
    ensures
        record@ == record_head(key, payload@.len() as u32, checksum) + payload@,
        record@.len() == 24 + payload@.len(),
{
    let mut record: Vec<u8> = Vec::new();
    push_le32(&mut record, RECORD_MAGIC);
    push_le32(&mut record, payload.len() as u32);
    push_le64(&mut record, key);
    push_le64(&mut record, checksum);
    assert(record@ =~= record_head(key, payload@.len() as u32, checksum)) by {
        reveal(record_head);
    }
    push_all(&mut record, payload);
    record
}

pub proof fn lemma_record_len(key: u64, payload: Seq<u8>, seed: u64)
    ensures
        record_of(key, payload, seed).len() == 24 + payload.len(),
{
    reveal(record_head);
}

pub proof fn lemma_header_len(seed: u64)
    ensures
        header_front(seed).len() == 24,
        header_of(seed).len() == 32,
{
    reveal(header_front);
}

/// Where a record stands, and what it says of its payload.
#[derive(Clone, Copy, Debug, PartialEq, Eq, Structural)]
pub struct Record {
    pub key: u64,
    pub offset: u64,
    pub len: u32,
    pub checksum: u64,
}

/// The intact record at `at`, if there is one: its magic is right, its payload
/// is not empty and all there, and the checksum is the payload's.
pub open spec fn record_at(file: Seq<u8>, seed: u64, at: int) -> Option<Record> {
    if at < 0 || at + 24 > file.len() {
        None
    } else {
        let len = bytes::le32_at(file, at + 4);
        let checksum = bytes::le64_at(file, at + 16);
        if bytes::le32_at(file, at) != RECORD_MAGIC || len == 0 || at + 24 + len > file.len()
            || checksum_of(file.subrange(at + 24, at + 24 + len), seed) != checksum {
            None
        } else {
            Some(
                Record { key: bytes::le64_at(file, at + 8), offset: at as u64, len, checksum },
            )
        }
    }
}

/// The intact records from `at` on, up to the first that is not.
pub open spec fn records_from(file: Seq<u8>, seed: u64, at: int) -> Seq<Record>
    decreases file.len() - at,
{
    match record_at(file, seed, at) {
        None => Seq::empty(),
        Some(r) => seq![r] + records_from(file, seed, at + 24 + r.len),
    }
}

/// The bytes the records take.
pub open spec fn size_of_records(records: Seq<Record>) -> int
    decreases records.len(),
{
    if records.len() == 0 {
        0
    } else {
        size_of_records(records.drop_last()) + 24 + records.last().len
    }
}

/// Reads and checks the record at `at`.
pub fn read_record(file: &[u8], seed: u64, at: usize) -> (r: Option<Record>)
    requires
        at <= file@.len(),
    ensures
        r == record_at(file@, seed, at as int),
{
    if file.len() - at < 24 {
        return None;
    }
    let magic: u32 = get_le32(file, at);
    let len: u32 = get_le32(file, at + 4);
    let key: u64 = get_le64(file, at + 8);
    let checksum: u64 = get_le64(file, at + 16);
    if magic != RECORD_MAGIC || len == 0 || file.len() - at - 24 < len as usize {
        return None;
    }
    let payload: &[u8] = &file[at + 24..at + 24 + len as usize];
    if verify(payload, seed) != checksum {
        return None;
    }
    Some(Record { key, offset: at as u64, len, checksum })
}

/// The seed a header names, if the header is whole.
pub fn read_header(file: &[u8]) -> (r: Option<u64>)
    requires
        file@.len() >= 32,
    ensures
        r matches Some(seed) ==> header_stands(file@, seed),
        r is None ==> forall|seed: u64| !header_stands(file@, seed),
{
    let seed: u64 = get_le64(file, 16);
    assert(file@.subrange(0, 24) =~= file@.take(24));
    if get_le32(file, 0) != RCLS_MAGIC || get_le32(file, 4) != FORMAT_VERSION || get_le64(file, 24)
        != xxh64_seeded(seed, &file[0..24]) {
        return None;
    }
    Some(seed)
}

/// The checksum of a payload covers its length and every byte of it.
pub proof fn law_a_checksum_covers_the_length_and_the_bytes(payload: Seq<u8>, seed: u64)
    requires
        payload.len() <= u64::MAX,
    ensures
        checksum_of(payload, seed) == hash::xxh64(
            seed ^ 0x5243_4C53_4352_4331,
            bytes::le64(payload.len() as u64) + payload,
        ),
{
    reveal(checksum_of);
}

} // verus!
