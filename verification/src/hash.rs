//! xxHash64: the checksum of everything that is cached on disk.
use crate::bytes;
use crate::bytes::{get_le32, get_le64};
use vstd::prelude::*;

verus! {

pub const PRIME_1: u64 = 0x9E37_79B1_85EB_CA87;

pub const PRIME_2: u64 = 0xC2B2_AE3D_27D4_EB4F;

pub const PRIME_3: u64 = 0x1656_67B1_9E37_79F9;

pub const PRIME_4: u64 = 0x85EB_CA77_C2B2_AE63;

pub const PRIME_5: u64 = 0x27D4_EB2F_1656_67C5;

/// `v`, turned left by `by` bits.
pub open spec fn turned(v: u64, by: u64) -> u64 {
    (v << by) | (v >> ((64 - by) as u64))
}

fn turn(v: u64, by: u64) -> (r: u64)
    requires
        0 < by < 64,
    ensures
        r == turned(v, by),
{
    (v << by) | (v >> (64 - by))
}

/// One lane of the accumulator takes one word of input.
pub open spec fn rounded(acc: u64, input: u64) -> u64 {
    turned(acc.wrapping_add(input.wrapping_mul(PRIME_2)), 31).wrapping_mul(PRIME_1)
}

fn round(acc: u64, input: u64) -> (r: u64)
    ensures
        r == rounded(acc, input),
{
    turn(acc.wrapping_add(input.wrapping_mul(PRIME_2)), 31).wrapping_mul(PRIME_1)
}

/// A lane is merged into the hash.
pub open spec fn merged(hash: u64, lane: u64) -> u64 {
    (hash ^ rounded(0, lane)).wrapping_mul(PRIME_1).wrapping_add(PRIME_4)
}

fn merge(hash: u64, lane: u64) -> (r: u64)
    ensures
        r == merged(hash, lane),
{
    (hash ^ round(0, lane)).wrapping_mul(PRIME_1).wrapping_add(PRIME_4)
}

/// The four lanes after `stripes` stripes of 32 bytes.
pub open spec fn lanes_after(seed: u64, data: Seq<u8>, stripes: nat) -> (u64, u64, u64, u64)
    decreases stripes,
{
    if stripes == 0 {
        (
            seed.wrapping_add(PRIME_1).wrapping_add(PRIME_2),
            seed.wrapping_add(PRIME_2),
            seed,
            seed.wrapping_sub(PRIME_1),
        )
    } else {
        let (a, b, c, d) = lanes_after(seed, data, (stripes - 1) as nat);
        let at = 32 * (stripes - 1);
        (
            rounded(a, bytes::le64_at(data, at)),
            rounded(b, bytes::le64_at(data, at + 8)),
            rounded(c, bytes::le64_at(data, at + 16)),
            rounded(d, bytes::le64_at(data, at + 24)),
        )
    }
}

/// The hash once all whole stripes are in.
pub open spec fn after_stripes(seed: u64, data: Seq<u8>) -> u64 {
    if data.len() < 32 {
        seed.wrapping_add(PRIME_5)
    } else {
        let (a, b, c, d) = lanes_after(seed, data, data.len() / 32);
        let h = turned(a, 1).wrapping_add(turned(b, 7)).wrapping_add(turned(c, 12)).wrapping_add(
            turned(d, 18),
        );
        merged(merged(merged(merged(h, a), b), c), d)
    }
}

/// The hash once what is left from `at` on is in: words of eight bytes, then at
/// most one of four, then single bytes.
pub open spec fn after_tail(hash: u64, data: Seq<u8>, at: int) -> u64
    decreases data.len() - at,
{
    if at < 0 || at >= data.len() {
        hash
    } else if at + 8 <= data.len() {
        let h = turned(hash ^ rounded(0, bytes::le64_at(data, at)), 27).wrapping_mul(
            PRIME_1,
        ).wrapping_add(PRIME_4);
        after_tail(h, data, at + 8)
    } else if at + 4 <= data.len() {
        let h = turned(
            hash ^ (bytes::le32_at(data, at) as u64).wrapping_mul(PRIME_1),
            23,
        ).wrapping_mul(PRIME_2).wrapping_add(PRIME_3);
        after_tail(h, data, at + 4)
    } else {
        let h = turned(hash ^ (data[at] as u64).wrapping_mul(PRIME_5), 11).wrapping_mul(PRIME_1);
        after_tail(h, data, at + 1)
    }
}

/// The final mix.
pub open spec fn avalanched(hash: u64) -> u64 {
    let h = (hash ^ (hash >> 33)).wrapping_mul(PRIME_2);
    let h = (h ^ (h >> 29)).wrapping_mul(PRIME_3);
    h ^ (h >> 32)
}

/// xxHash64 of `data`.
#[verifier::opaque]
pub open spec fn xxh64(seed: u64, data: Seq<u8>) -> u64 {
    let h = after_stripes(seed, data).wrapping_add(data.len() as u64);
    avalanched(after_tail(h, data, (data.len() / 32) as int * 32))
}

fn take_stripes(seed: u64, data: &[u8]) -> (h: u64)
    ensures
        h == after_stripes(seed, data@),
{
    if data.len() < 32 {
        return seed.wrapping_add(PRIME_5);
    }
    let mut a: u64 = seed.wrapping_add(PRIME_1).wrapping_add(PRIME_2);
    let mut b: u64 = seed.wrapping_add(PRIME_2);
    let mut c: u64 = seed;
    let mut d: u64 = seed.wrapping_sub(PRIME_1);
    let stripes: usize = data.len() / 32;
    let mut i: usize = 0;
    while i < stripes
        invariant
            i <= stripes,
            32 * stripes <= data@.len(),
            (a, b, c, d) == lanes_after(seed, data@, i as nat),
        decreases stripes - i,
    {
        assert(data.len() == data@.len());
        let at: usize = 32 * i;
        a = round(a, get_le64(data, at));
        b = round(b, get_le64(data, at + 8));
        c = round(c, get_le64(data, at + 16));
        d = round(d, get_le64(data, at + 24));
        i += 1;
    }
    let h: u64 = turn(a, 1).wrapping_add(turn(b, 7)).wrapping_add(turn(c, 12)).wrapping_add(
        turn(d, 18),
    );
    merge(merge(merge(merge(h, a), b), c), d)
}

/// xxHash64 with a seed.
pub fn xxh64_seeded(seed: u64, data: &[u8]) -> (hash: u64)
    ensures
        hash == xxh64(seed, data@),
{
    reveal(xxh64);
    let mut h: u64 = take_stripes(seed, data).wrapping_add(data.len() as u64);
    let mut at: usize = (data.len() / 32) * 32;
    let ghost start = after_tail(h, data@, at as int);
    while at < data.len()
        invariant
            at <= data@.len(),
            after_tail(h, data@, at as int) == start,
        decreases data@.len() - at,
    {
        let rest: usize = data.len() - at;
        if rest >= 8 {
            h = turn(h ^ round(0, get_le64(data, at)), 27).wrapping_mul(PRIME_1).wrapping_add(
                PRIME_4,
            );
            at = at + 8;
        } else if rest >= 4 {
            h = turn(h ^ (get_le32(data, at) as u64).wrapping_mul(PRIME_1), 23).wrapping_mul(
                PRIME_2,
            ).wrapping_add(PRIME_3);
            at = at + 4;
        } else {
            h = turn(h ^ (data[at] as u64).wrapping_mul(PRIME_5), 11).wrapping_mul(PRIME_1);
            at = at + 1;
        }
    }
    let h: u64 = (h ^ (h >> 33)).wrapping_mul(PRIME_2);
    let h: u64 = (h ^ (h >> 29)).wrapping_mul(PRIME_3);
    h ^ (h >> 32)
}

/// The steps of the hash are those that are published of xxHash64, with its five primes:
/// of a word in a lane, of a lane in the hash, and of the last mix.
pub proof fn law_the_steps_are_those_of_xxhash64(hash: u64, input: u64)
    ensures
        rounded(hash, input) == ({
            let v = hash.wrapping_add(input.wrapping_mul(14029467366897019727));
            ((v << 31u64) | (v >> 33u64)).wrapping_mul(11400714785074694791)
        }),
        merged(hash, input) == (hash ^ rounded(0, input)).wrapping_mul(
            11400714785074694791,
        ).wrapping_add(9650029242287828579),
        avalanched(hash) == ({
            let a = (hash ^ (hash >> 33u64)).wrapping_mul(14029467366897019727);
            let b = (a ^ (a >> 29u64)).wrapping_mul(1609587929392839161);
            b ^ (b >> 32u64)
        }),
{
}

/// A message that is shorter than a stripe starts from the seed and the fifth prime, and
/// takes its length in; words of eight bytes, of four and single bytes follow, each mixed
/// in by its own prime and turned by its own step.
pub proof fn law_a_short_message_is_taken_in_by_its_words(
    seed: u64,
    data: Seq<u8>,
    hash: u64,
    at: int,
)
    requires
        data.len() < 32,
        0 <= at < data.len(),
    ensures
        xxh64(seed, data) == avalanched(
            after_tail(
                seed.wrapping_add(2870177450012600261).wrapping_add(data.len() as u64),
                data,
                0,
            ),
        ),
        at + 8 <= data.len() ==> after_tail(hash, data, at) == after_tail(
            ({
                let v = hash ^ rounded(0, bytes::le64_at(data, at));
                ((v << 27u64) | (v >> 37u64)).wrapping_mul(11400714785074694791).wrapping_add(
                    9650029242287828579,
                )
            }),
            data,
            at + 8,
        ),
        at + 4 <= data.len() < at + 8 ==> after_tail(hash, data, at) == after_tail(
            ({
                let v = hash ^ (bytes::le32_at(data, at) as u64).wrapping_mul(
                    11400714785074694791,
                );
                ((v << 23u64) | (v >> 41u64)).wrapping_mul(14029467366897019727).wrapping_add(
                    1609587929392839161,
                )
            }),
            data,
            at + 4,
        ),
        data.len() < at + 4 ==> after_tail(hash, data, at) == after_tail(
            ({
                let v = hash ^ (data[at] as u64).wrapping_mul(2870177450012600261);
                ((v << 11u64) | (v >> 53u64)).wrapping_mul(11400714785074694791)
            }),
            data,
            at + 1,
        ),
{
    reveal(xxh64);
}

/// A stripe goes into four lanes, a word each, which start from the seed and the first
/// two primes; the lanes are turned by 1, 7, 12 and 18 bits, added up and merged.
pub proof fn law_a_stripe_goes_into_four_lanes(seed: u64, data: Seq<u8>, stripes: nat)
    requires
        0 < stripes,
    ensures
        lanes_after(seed, data, 0) == (
            seed.wrapping_add(11400714785074694791).wrapping_add(14029467366897019727),
            seed.wrapping_add(14029467366897019727),
            seed,
            seed.wrapping_sub(11400714785074694791),
        ),
        ({
            let (a, b, c, d) = lanes_after(seed, data, (stripes - 1) as nat);
            let at = 32 * (stripes - 1);
            lanes_after(seed, data, stripes) == (
                rounded(a, bytes::le64_at(data, at)),
                rounded(b, bytes::le64_at(data, at + 8)),
                rounded(c, bytes::le64_at(data, at + 16)),
                rounded(d, bytes::le64_at(data, at + 24)),
            )
        }),
        data.len() >= 32 ==> after_stripes(seed, data) == ({
            let (a, b, c, d) = lanes_after(seed, data, data.len() / 32);
            let h = ((a << 1u64) | (a >> 63u64)).wrapping_add(
                (b << 7u64) | (b >> 57u64),
            ).wrapping_add((c << 12u64) | (c >> 52u64)).wrapping_add((d << 18u64) | (d >> 46u64));
            merged(merged(merged(merged(h, a), b), c), d)
        }),
{
}

} // verus!
