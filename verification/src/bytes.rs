//! Integers as bytes, in either order, and bytes as text.
use vstd::prelude::*;

verus! {

/// The big-endian bytes of `v`.
pub open spec fn be32(v: u32) -> Seq<u8> {
    seq![
        (v / 0x100_0000) as u8,
        (v / 0x1_0000 % 0x100) as u8,
        (v / 0x100 % 0x100) as u8,
        (v % 0x100) as u8,
    ]
}

/// The number whose big-endian bytes stand at `at`.
pub open spec fn be32_at(s: Seq<u8>, at: int) -> u32 {
    (s[at] * 0x100_0000 + s[at + 1] * 0x1_0000 + s[at + 2] * 0x100 + s[at + 3]) as u32
}

/// The little-endian bytes of `v`.
pub open spec fn le16(v: u16) -> Seq<u8> {
    seq![(v % 0x100) as u8, (v / 0x100) as u8]
}

/// The number whose little-endian bytes stand at `at`.
pub open spec fn le16_at(s: Seq<u8>, at: int) -> u16 {
    (s[at + 1] * 0x100 + s[at]) as u16
}

/// The little-endian bytes of `v`.
pub open spec fn le32(v: u32) -> Seq<u8> {
    seq![
        (v % 0x100) as u8,
        (v / 0x100 % 0x100) as u8,
        (v / 0x1_0000 % 0x100) as u8,
        (v / 0x100_0000) as u8,
    ]
}

/// The number whose little-endian bytes stand at `at`.
pub open spec fn le32_at(s: Seq<u8>, at: int) -> u32 {
    (s[at + 3] * 0x100_0000 + s[at + 2] * 0x1_0000 + s[at + 1] * 0x100 + s[at]) as u32
}

/// The little-endian bytes of `v`: its low half, then its high half.
pub open spec fn le64(v: u64) -> Seq<u8> {
    le32((v % 0x1_0000_0000) as u32) + le32((v / 0x1_0000_0000) as u32)
}

/// The number whose little-endian bytes stand at `at`.
pub open spec fn le64_at(s: Seq<u8>, at: int) -> u64 {
    (le32_at(s, at + 4) * 0x1_0000_0000 + le32_at(s, at)) as u64
}

/// Reading gives back what was written.
pub proof fn lemma_be32(v: u32, s: Seq<u8>, at: int)
    requires
        0 <= at,
        at + 4 <= s.len(),
        s.subrange(at, at + 4) == be32(v),
    ensures
        be32_at(s, at) == v,
{
    let b = s.subrange(at, at + 4);
    assert(b[0] == s[at] && b[1] == s[at + 1] && b[2] == s[at + 2] && b[3] == s[at + 3]);
}

pub proof fn lemma_le16(v: u16, s: Seq<u8>, at: int)
    requires
        0 <= at,
        at + 2 <= s.len(),
        s.subrange(at, at + 2) == le16(v),
    ensures
        le16_at(s, at) == v,
{
    let b = s.subrange(at, at + 2);
    assert(b[0] == s[at] && b[1] == s[at + 1]);
}

pub proof fn lemma_le32(v: u32, s: Seq<u8>, at: int)
    requires
        0 <= at,
        at + 4 <= s.len(),
        s.subrange(at, at + 4) == le32(v),
    ensures
        le32_at(s, at) == v,
{
    let b = s.subrange(at, at + 4);
    assert(b[0] == s[at] && b[1] == s[at + 1] && b[2] == s[at + 2] && b[3] == s[at + 3]);
}

pub proof fn lemma_le64(v: u64, s: Seq<u8>, at: int)
    requires
        0 <= at,
        at + 8 <= s.len(),
        s.subrange(at, at + 8) == le64(v),
    ensures
        le64_at(s, at) == v,
{
    let b = s.subrange(at, at + 8);
    assert(s.subrange(at, at + 4) =~= b.subrange(0, 4));
    assert(s.subrange(at + 4, at + 8) =~= b.subrange(4, 8));
    assert(b.subrange(0, 4) =~= le32((v % 0x1_0000_0000) as u32));
    assert(b.subrange(4, 8) =~= le32((v / 0x1_0000_0000) as u32));
    lemma_le32((v % 0x1_0000_0000) as u32, s, at);
    lemma_le32((v / 0x1_0000_0000) as u32, s, at + 4);
}

pub fn push_be32(out: &mut Vec<u8>, v: u32)
    ensures
        final(out)@ == old(out)@ + be32(v),
{
    out.push((v / 0x100_0000) as u8);
    out.push((v / 0x1_0000 % 0x100) as u8);
    out.push((v / 0x100 % 0x100) as u8);
    out.push((v % 0x100) as u8);
    assert(out@ =~= old(out)@ + be32(v));
}

pub fn push_le16(out: &mut Vec<u8>, v: u16)
    ensures
        final(out)@ == old(out)@ + le16(v),
{
    out.push((v % 0x100) as u8);
    out.push((v / 0x100) as u8);
    assert(out@ =~= old(out)@ + le16(v));
}

pub fn push_le32(out: &mut Vec<u8>, v: u32)
    ensures
        final(out)@ == old(out)@ + le32(v),
{
    out.push((v % 0x100) as u8);
    out.push((v / 0x100 % 0x100) as u8);
    out.push((v / 0x1_0000 % 0x100) as u8);
    out.push((v / 0x100_0000) as u8);
    assert(out@ =~= old(out)@ + le32(v));
}

pub fn push_le64(out: &mut Vec<u8>, v: u64)
    ensures
        final(out)@ == old(out)@ + le64(v),
{
    push_le32(out, (v % 0x1_0000_0000) as u32);
    push_le32(out, (v / 0x1_0000_0000) as u32);
    assert(out@ =~= old(out)@ + le64(v));
}

pub fn get_be32(s: &[u8], at: usize) -> (v: u32)
    requires
        at + 4 <= s@.len(),
    ensures
        v == be32_at(s@, at as int),
{
    (s[at] as u32) * 0x100_0000 + (s[at + 1] as u32) * 0x1_0000 + (s[at + 2] as u32) * 0x100 + (
    s[at + 3] as u32)
}

pub fn get_le16(s: &[u8], at: usize) -> (v: u16)
    requires
        at + 2 <= s@.len(),
    ensures
        v == le16_at(s@, at as int),
{
    (s[at] as u16) + (s[at + 1] as u16) * 0x100
}

pub fn get_le32(s: &[u8], at: usize) -> (v: u32)
    requires
        at + 4 <= s@.len(),
    ensures
        v == le32_at(s@, at as int),
{
    (s[at] as u32) + (s[at + 1] as u32) * 0x100 + (s[at + 2] as u32) * 0x1_0000 + (
    s[at + 3] as u32) * 0x100_0000
}

pub fn get_le64(s: &[u8], at: usize) -> (v: u64)
    requires
        at + 8 <= s@.len(),
    ensures
        v == le64_at(s@, at as int),
{
    assert(s.len() == s@.len());
    (get_le32(s, at) as u64) + (get_le32(s, at + 4) as u64) * 0x1_0000_0000
}

/// Appends a slice of bytes.
pub fn push_all(out: &mut Vec<u8>, s: &[u8])
    ensures
        final(out)@ == old(out)@ + s@,
{
    out.extend_from_slice(s);
    assert(out@ =~= old(out)@ + s@);
}

/// Do two byte strings hold the same bytes?
pub fn same_bytes(a: &[u8], b: &[u8]) -> (r: bool)
    ensures
        r == (a@ == b@),
{
    if a.len() != b.len() {
        return false;
    }
    let mut i: usize = 0;
    while i < a.len()
        invariant
            i <= a@.len() == b@.len(),
            forall|k: int| 0 <= k < i ==> #[trigger] a@[k] == b@[k],
        decreases a@.len() - i,
    {
        if a[i] != b[i] {
            return false;
        }
        i += 1;
    }
    assert(a@ =~= b@);
    true
}

/// The text that [`String::from_utf8_lossy`] makes of bytes.
pub uninterp spec fn lossy_text(bytes: Seq<u8>) -> Seq<char>;

/// [`String::from_utf8_lossy`]: the bytes as text, with a replacement character
/// for what is not UTF-8. Bytes that are UTF-8 come out as they are; how invalid
/// sequences are cut up is left to the name.
#[verifier::external_body]
pub(crate) fn lossy(bytes: &[u8]) -> (s: String)
    ensures
        s@ == lossy_text(bytes@),
        vstd::utf8::valid_utf8(bytes@) ==> s@ == vstd::utf8::decode_utf8(bytes@),
{
    String::from_utf8_lossy(bytes).into_owned()
}

/// Numbers are laid out byte by byte, from the largest in big-endian order and from the
/// smallest in little-endian order: the bytes, weighed by their places, add up to the
/// number, and the two orders are each other's reverse.
pub proof fn law_bytes_are_weighed_by_their_places(v: u32, w: u64, u: u16)
    ensures
        be32(v).len() == 4,
        v == be32(v)[0] * 16777216 + be32(v)[1] * 65536 + be32(v)[2] * 256 + be32(v)[3],
        le32(v) == be32(v).reverse(),
        le16(u).len() == 2,
        u == le16(u)[0] + le16(u)[1] * 256,
        le64(w).len() == 8,
        w == le64(w)[0] + le64(w)[1] * 0x100 + le64(w)[2] * 0x1_0000 + le64(w)[3] * 0x100_0000
            + le64(w)[4] * 0x1_0000_0000 + le64(w)[5] * 0x100_0000_0000 + le64(w)[6]
            * 0x1_0000_0000_0000 + le64(w)[7] * 0x100_0000_0000_0000,
{
    assert(le32(v) =~= be32(v).reverse());
}

} // verus!
