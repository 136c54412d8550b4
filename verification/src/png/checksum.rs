//! CRC-32 and Adler-32.
use vstd::prelude::*;

verus! {

/// The CRC polynomial, bit-reversed.
pub const POLYNOMIAL: u32 = 0xEDB8_8320;

/// One bit of the division.
pub open spec fn crc_bit(c: u32) -> u32 {
    if c & 1 != 0 {
        0xEDB8_8320u32 ^ (c >> 1)
    } else {
        c >> 1
    }
}

/// One byte of the division: eight bits.
pub open spec fn crc_shift(c: u32) -> u32 {
    crc_bit(crc_bit(crc_bit(crc_bit(crc_bit(crc_bit(crc_bit(crc_bit(c))))))))
}

/// The register after `data`, from all ones.
pub open spec fn crc_state(data: Seq<u8>) -> u32
    decreases data.len(),
{
    if data.len() == 0 {
        0xFFFF_FFFFu32
    } else {
        crc_shift(crc_state(data.drop_last()) ^ (data.last() as u32))
    }
}

/// CRC-32 (IEEE).
pub open spec fn crc_of(data: Seq<u8>) -> u32 {
    crc_state(data) ^ 0xFFFF_FFFFu32
}

/// The table of a byte's eight division steps.
pub open spec fn is_crc_table(table: Seq<u32>) -> bool {
    &&& table.len() == 256
    &&& forall|i: int| 0 <= i < 256 ==> #[trigger] table[i] == crc_shift(i as u32)
}

/// Division is linear: the low byte goes through the table, the rest moves down.
proof fn lemma_crc_table_step(c: u32)
    ensures
        crc_shift(c) == crc_shift(c & 0xFF) ^ (c >> 8),
        (c & 0xFF) < 256,
{
    assert(crc_shift(c) == crc_shift(c & 0xFF) ^ (c >> 8)) by (bit_vector);
    assert((c & 0xFF) < 256) by (bit_vector);
}

fn crc_table() -> (table: Vec<u32>)
    ensures
        is_crc_table(table@),
{
    let mut table: Vec<u32> = Vec::new();
    let mut i: u32 = 0;
    while i < 256
        invariant
            i <= 256,
            table@.len() == i,
            forall|k: int| 0 <= k < i ==> #[trigger] table@[k] == crc_shift(k as u32),
        decreases 256 - i,
    {
        let c: u32 = divide(divide(divide(divide(i))));
        let c: u32 = divide(divide(divide(divide(c))));
        table.push(c);
        i += 1;
    }
    table
}

fn divide(c: u32) -> (r: u32)
    ensures
        r == crc_bit(c),
{
    if c & 1 != 0 {
        POLYNOMIAL ^ (c >> 1)
    } else {
        c >> 1
    }
}

/// CRC-32 (IEEE), table-driven.
pub fn crc32(data: &[u8]) -> (crc: u32)
    ensures
        crc == crc_of(data@),
{
    let table = crc_table();
    let mut crc: u32 = 0xFFFF_FFFF;
    let mut i: usize = 0;
    while i < data.len()
        invariant
            i <= data@.len(),
            is_crc_table(table@),
            crc == crc_state(data@.take(i as int)),
        decreases data@.len() - i,
    {
        assert(data@.take(i + 1).drop_last() =~= data@.take(i as int));
        let mixed: u32 = crc ^ (data[i] as u32);
        proof {
            lemma_crc_table_step(mixed);
            let b = data@[i as int] as u32;
            assert(mixed >> 8 == crc >> 8) by (bit_vector)
                requires
                    b < 256,
                    mixed == crc ^ b;
        }
        crc = table[(mixed & 0xFF) as usize] ^ (crc >> 8);
        i += 1;
    }
    assert(data@.take(i as int) =~= data@);
    crc ^ 0xFFFF_FFFF
}

/// The two sums of Adler-32, modulo 65521.
pub open spec fn adler_sums(data: Seq<u8>) -> (int, int)
    decreases data.len(),
{
    if data.len() == 0 {
        (1, 0)
    } else {
        let (a, b) = adler_sums(data.drop_last());
        let a = (a + data.last()) % 65521;
        (a, (b + a) % 65521)
    }
}

/// Adler-32, as zlib defines it.
pub open spec fn adler_of(data: Seq<u8>) -> u32 {
    let (a, b) = adler_sums(data);
    (b * 0x1_0000 + a) as u32
}

/// Adler-32, as zlib requires.
pub fn adler32(data: &[u8]) -> (sum: u32)
    ensures
        sum == adler_of(data@),
{
    let mut a: u32 = 1;
    let mut b: u32 = 0;
    let mut i: usize = 0;
    while i < data.len()
        invariant
            i <= data@.len(),
            a < 65521,
            b < 65521,
            (a as int, b as int) == adler_sums(data@.take(i as int)),
        decreases data@.len() - i,
    {
        assert(data@.take(i + 1).drop_last() =~= data@.take(i as int));
        a = (a + data[i] as u32) % 65521;
        b = (b + a) % 65521;
        i += 1;
    }
    assert(data@.take(i as int) =~= data@);
    assert((b << 16u32) | a == b * 0x1_0000 + a) by (bit_vector)
        requires
            a < 65521,
            b < 65521;
    (b << 16) | a
}

proof fn lemma_crc_bit_injective(c: u32, d: u32)
    requires
        crc_bit(c) == crc_bit(d),
    ensures
        c == d,
{
    assert(crc_bit(c) == crc_bit(d) ==> c == d) by (bit_vector);
}

proof fn lemma_crc_shift_injective(c: u32, d: u32)
    requires
        crc_shift(c) == crc_shift(d),
    ensures
        c == d,
{
    let (c1, d1) = (crc_bit(c), crc_bit(d));
    let (c2, d2) = (crc_bit(c1), crc_bit(d1));
    let (c3, d3) = (crc_bit(c2), crc_bit(d2));
    let (c4, d4) = (crc_bit(c3), crc_bit(d3));
    let (c5, d5) = (crc_bit(c4), crc_bit(d4));
    let (c6, d6) = (crc_bit(c5), crc_bit(d5));
    let (c7, d7) = (crc_bit(c6), crc_bit(d6));
    lemma_crc_bit_injective(c7, d7);
    lemma_crc_bit_injective(c6, d6);
    lemma_crc_bit_injective(c5, d5);
    lemma_crc_bit_injective(c4, d4);
    lemma_crc_bit_injective(c3, d3);
    lemma_crc_bit_injective(c2, d2);
    lemma_crc_bit_injective(c1, d1);
    lemma_crc_bit_injective(c, d);
}

/// The bytes differ at `at` and nowhere else.
pub open spec fn differ_at(a: Seq<u8>, b: Seq<u8>, at: int) -> bool {
    &&& a.len() == b.len()
    &&& 0 <= at < a.len()
    &&& a[at] != b[at]
    &&& forall|i: int| 0 <= i < a.len() && i != at ==> a[i] == #[trigger] b[i]
}

proof fn lemma_crc_state_differs(a: Seq<u8>, b: Seq<u8>, at: int)
    requires
        differ_at(a, b, at),
    ensures
        crc_state(a) != crc_state(b),
    decreases a.len(),
{
    let (p, q) = (a.drop_last(), b.drop_last());
    let (s, t) = (crc_state(p), crc_state(q));
    let (x, y) = (a.last() as u32, b.last() as u32);
    if at == a.len() - 1 {
        assert(p =~= q);
        assert(s ^ x == s ^ y ==> x == y) by (bit_vector);
    } else {
        assert forall|i: int| 0 <= i < p.len() && i != at implies p[i] == #[trigger] q[i] by {
            assert(a[i] == b[i]);
        }
        lemma_crc_state_differs(p, q, at);
        assert(a[a.len() - 1] == b[a.len() - 1]);
        assert(s ^ x == t ^ x ==> s == t) by (bit_vector);
    }
    if crc_state(a) == crc_state(b) {
        lemma_crc_shift_injective(s ^ x, t ^ y);
    }
}

/// A single changed byte always changes the CRC.
pub proof fn law_the_crc_sees_every_changed_byte(a: Seq<u8>, b: Seq<u8>, at: int)
    requires
        differ_at(a, b, at),
    ensures
        crc_of(a) != crc_of(b),
{
    lemma_crc_state_differs(a, b, at);
    let (s, t) = (crc_state(a), crc_state(b));
    assert(s ^ 0xFFFF_FFFFu32 == t ^ 0xFFFF_FFFFu32 ==> s == t) by (bit_vector);
}

/// A message with its CRC behind it leaves the residue of this CRC, whatever the
/// message: its bits with the CRC's are a multiple of the polynomial, but for the
/// complements at both ends.
pub proof fn law_a_message_with_its_crc_leaves_the_residue(data: Seq<u8>)
    ensures
        ({
            let crc = crc_of(data);
            crc_of(
                data + seq![
                    (crc % 256) as u8,
                    (crc / 256 % 256) as u8,
                    (crc / 65536 % 256) as u8,
                    (crc / 16777216) as u8,
                ],
            ) == 0x2144_DF1C
        }),
{
    let s = crc_state(data);
    let v = crc_of(data);
    let (b0, b1, b2, b3) = (
        (v % 256) as u8,
        (v / 256 % 256) as u8,
        (v / 65536 % 256) as u8,
        (v / 16777216) as u8,
    );
    let (d1, d2, d3) = (
        data.push(b0),
        data.push(b0).push(b1),
        data.push(b0).push(b1).push(b2),
    );
    let d4 = d3.push(b3);
    assert(data + seq![b0, b1, b2, b3] =~= d4);
    assert(d1.drop_last() =~= data && d2.drop_last() =~= d1 && d3.drop_last() =~= d2
        && d4.drop_last() =~= d3);
    let (s1, s2, s3, s4) = (crc_state(d1), crc_state(d2), crc_state(d3), crc_state(d4));
    let (v1, v2, v3) = (v / 256, v / 65536, v / 16777216);
    lemma_crc_takes_a_byte(s, v);
    lemma_crc_takes_a_byte(s1, v1);
    lemma_crc_takes_a_byte(s2, v2);
    lemma_crc_takes_a_byte(s3, v3);
    assert(s ^ (s ^ 0xFFFF_FFFFu32) == 0xFFFF_FFFFu32) by (bit_vector);
    assert(v1 / 256 == v2 && v2 / 256 == v3 && v3 / 256 == 0);
    assert(v1 % 256 == b1 && v2 % 256 == b2 && v3 % 256 == b3);
    assert(s4 ^ 0u32 == s4) by (bit_vector);
    lemma_residue();
}

/// Taking a byte in is taking in all that follows it and putting the rest off.
proof fn lemma_crc_takes_a_byte(s: u32, v: u32)
    ensures
        crc_shift(s ^ ((v % 256) as u8 as u32)) ^ (v / 256) == crc_shift(s ^ v),
{
    let b = (v % 256) as u32;
    let rest = (v / 256) as u32;
    assert(crc_shift(s ^ b) ^ rest == crc_shift(s ^ v)) by (bit_vector)
        requires
            b == v % 256,
            rest == v / 256;
}

proof fn lemma_residue()
    ensures
        crc_shift(crc_shift(crc_shift(crc_shift(0xFFFF_FFFFu32)))) ^ 0xFFFF_FFFFu32 == 0x2144_DF1C,
{
    assert(crc_shift(0xFFFF_FFFFu32) == 0x2DFD_1072u32) by (bit_vector);
    assert(crc_shift(0x2DFD_1072u32) == 0xBE26_ED00u32) by (bit_vector);
    assert(crc_shift(0xBE26_ED00u32) == 0x00BE_26EDu32) by (bit_vector);
    assert(crc_shift(0x00BE_26EDu32) == 0xDEBB_20E3u32) by (bit_vector);
    assert(0xDEBB_20E3u32 ^ 0xFFFF_FFFFu32 == 0x2144_DF1Cu32) by (bit_vector);
}

/// The bytes of some data together.
pub open spec fn sum_of(data: Seq<u8>) -> int
    decreases data.len(),
{
    if data.len() == 0 {
        0
    } else {
        sum_of(data.drop_last()) + data.last()
    }
}

/// The bytes of some data together, each as often as there are bytes from it on.
pub open spec fn weighted_sum_of(data: Seq<u8>) -> int
    decreases data.len(),
{
    if data.len() == 0 {
        0
    } else {
        weighted_sum_of(data.drop_last()) + sum_of(data)
    }
}

/// Adler-32 is two sums modulo the largest prime below 65536: of the bytes and one, and
/// of those sums after each byte.
pub proof fn law_the_adler_sum_is_two_sums_modulo_a_prime(data: Seq<u8>)
    ensures
        adler_of(data) as int % 65536 == (1 + sum_of(data)) % 65521,
        adler_of(data) as int / 65536 == (data.len() + weighted_sum_of(data)) % 65521,
{
    lemma_adler(data);
    let (a, b) = adler_sums(data);
    assert(0 <= a < 65521 && 0 <= b < 65521);
    assert((b * 65536 + a) / 65536 == b && (b * 65536 + a) % 65536 == a);
}

proof fn lemma_adler(data: Seq<u8>)
    ensures
        adler_sums(data).0 == (1 + sum_of(data)) % 65521,
        adler_sums(data).1 == (data.len() + weighted_sum_of(data)) % 65521,
    decreases data.len(),
{
    if data.len() > 0 {
        let rest = data.drop_last();
        lemma_adler(rest);
        let (s, w) = (sum_of(rest), weighted_sum_of(rest));
        let x = data.last() as int;
        assert(((1 + s) % 65521 + x) % 65521 == (1 + s + x) % 65521);
        let (p, q) = (rest.len() + w, 1 + s + x);
        assert((p % 65521 + q % 65521) % 65521 == (p + q) % 65521);
    }
}

} // verus!
