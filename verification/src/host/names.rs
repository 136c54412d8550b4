//! Names for the interface's numbers and for the fixed-size strings it writes back.
use crate::bytes;
use crate::host::abi;
use crate::text;
use vstd::prelude::*;
use vstd::string::StringExecFns;

verus! {

/// How many capability bits have a name.
pub const CAP_COUNT: usize = 15;

/// A capability bit, in the interface's order.
pub open spec fn cap_bit(i: int) -> u32 {
    if i == 0 {
        abi::CAP_TEXTURES
    } else if i == 1 {
        abi::CAP_MIPMAPS
    } else if i == 2 {
        abi::CAP_SHADOWS
    } else if i == 3 {
        abi::CAP_PCF_5X5
    } else if i == 4 {
        abi::CAP_PCSS_LITE
    } else if i == 5 {
        abi::CAP_DISK_SPILL
    } else if i == 6 {
        abi::CAP_MULTITHREAD
    } else if i == 7 {
        abi::CAP_OUT_OF_CORE
    } else if i == 8 {
        abi::CAP_CACHED_CASCADE
    } else if i == 9 {
        abi::CAP_SIMD_SSE2
    } else if i == 10 {
        abi::CAP_SIMD_AVX2
    } else if i == 11 {
        abi::CAP_SIMD_NEON
    } else if i == 12 {
        abi::CAP_SIMD_WASM128
    } else if i == 13 {
        abi::CAP_COMPUTE
    } else {
        abi::CAP_PRESENT_TO_MEMORY
    }
}

/// The name of a capability bit.
pub open spec fn cap_name(i: int) -> Seq<char> {
    if i == 0 {
        "textures"@
    } else if i == 1 {
        "mipmaps"@
    } else if i == 2 {
        "shadows"@
    } else if i == 3 {
        "pcf5x5"@
    } else if i == 4 {
        "pcss-lite"@
    } else if i == 5 {
        "disk-spill"@
    } else if i == 6 {
        "multithread"@
    } else if i == 7 {
        "out-of-core"@
    } else if i == 8 {
        "cached-cascade"@
    } else if i == 9 {
        "simd-sse2"@
    } else if i == 10 {
        "simd-avx2"@
    } else if i == 11 {
        "simd-neon"@
    } else if i == 12 {
        "simd-wasm128"@
    } else if i == 13 {
        "compute"@
    } else {
        "present-to-memory"@
    }
}

/// The capability bits, in the interface's order, with their names.
pub fn cap(i: usize) -> (r: (u32, &'static str))
    requires
        i < CAP_COUNT,
    ensures
        r.0 == cap_bit(i as int),
        r.1@ == cap_name(i as int),
{
    match i {
        0 => (abi::CAP_TEXTURES, "textures"),
        1 => (abi::CAP_MIPMAPS, "mipmaps"),
        2 => (abi::CAP_SHADOWS, "shadows"),
        3 => (abi::CAP_PCF_5X5, "pcf5x5"),
        4 => (abi::CAP_PCSS_LITE, "pcss-lite"),
        5 => (abi::CAP_DISK_SPILL, "disk-spill"),
        6 => (abi::CAP_MULTITHREAD, "multithread"),
        7 => (abi::CAP_OUT_OF_CORE, "out-of-core"),
        8 => (abi::CAP_CACHED_CASCADE, "cached-cascade"),
        9 => (abi::CAP_SIMD_SSE2, "simd-sse2"),
        10 => (abi::CAP_SIMD_AVX2, "simd-avx2"),
        11 => (abi::CAP_SIMD_NEON, "simd-neon"),
        12 => (abi::CAP_SIMD_WASM128, "simd-wasm128"),
        13 => (abi::CAP_COMPUTE, "compute"),
        _ => (abi::CAP_PRESENT_TO_MEMORY, "present-to-memory"),
    }
}

/// The names of the set bits among the first `n`, in the interface's order.
pub open spec fn cap_names(bits: u32, n: nat) -> Seq<Seq<char>>
    decreases n,
{
    if n == 0 {
        seq![]
    } else if bits & cap_bit(n - 1) != 0 {
        cap_names(bits, (n - 1) as nat).push(cap_name(n - 1))
    } else {
        cap_names(bits, (n - 1) as nat)
    }
}

/// The names of the set bits, in the interface's order.
pub fn caps_list(bits: u32) -> (r: Vec<&'static str>)
    ensures
        text::texts(r@) == cap_names(bits, CAP_COUNT as nat),
{
    let mut r: Vec<&'static str> = Vec::new();
    let mut i: usize = 0;
    assert(text::texts(r@) =~= cap_names(bits, 0));
    while i < CAP_COUNT
        invariant
            i <= CAP_COUNT,
            text::texts(r@) == cap_names(bits, i as nat),
        decreases CAP_COUNT - i,
    {
        let (bit, name) = cap(i);
        if bits & bit != 0 {
            let ghost before = text::texts(r@);
            r.push(name);
            assert(text::texts(r@) =~= before.push(name@));
        }
        i += 1;
    }
    r
}

/// The digit `d` in base sixteen.
pub open spec fn hex_char(d: nat) -> char {
    if d < 10 {
        (48 + d) as u8 as char
    } else {
        (87 + d) as u8 as char
    }
}

/// `n` in base sixteen, without leading zeros.
pub open spec fn hex(n: nat) -> Seq<char>
    decreases n,
{
    if n < 16 {
        seq![hex_char(n)]
    } else {
        hex(n / 16).push(hex_char(n % 16))
    }
}

fn push_hex(out: &mut String, n: u32)
    ensures
        final(out)@ == old(out)@ + hex(n as nat),
    decreases n,
{
    if n >= 16 {
        push_hex(out, n / 16);
    }
    let d: u8 = (n % 16) as u8;
    if d < 10 {
        out.push((48 + d) as char);
    } else {
        out.push((87 + d) as char);
    }
    assert(out@ =~= old(out)@ + hex(n as nat));
}

/// Texts with a comma between each two.
pub open spec fn listed(parts: Seq<Seq<char>>) -> Seq<char>
    decreases parts.len(),
{
    if parts.len() == 0 {
        seq![]
    } else if parts.len() == 1 {
        parts[0]
    } else {
        listed(parts.drop_last()) + ", "@ + parts.last()
    }
}

/// What there is to say of a set of capability bits: the names, and the bits
/// that have none.
pub open spec fn cap_parts(bits: u32) -> Seq<Seq<char>> {
    let names = cap_names(bits, CAP_COUNT as nat);
    let unknown = bits & !abi::CAPS_NAMED;
    if unknown != 0 {
        names.push("unknown:0x"@ + hex(unknown as nat))
    } else {
        names
    }
}

pub open spec fn caps_text(bits: u32) -> Seq<char> {
    if cap_parts(bits).len() == 0 {
        "none"@
    } else {
        listed(cap_parts(bits))
    }
}

/// Joining one more part.
proof fn lemma_listed_push(parts: Seq<Seq<char>>, part: Seq<char>)
    ensures
        listed(parts.push(part)) == if parts.len() == 0 {
            part
        } else {
            listed(parts) + ", "@ + part
        },
{
    assert(parts.push(part).drop_last() =~= parts);
}

/// The set bits as one comma-separated line, plus any bit that has no name here -
/// an unknown bit is reported rather than dropped, because a capability a host
/// cannot see is one it cannot use.
pub fn caps(bits: u32) -> (r: String)
    ensures
        r@ == caps_text(bits),
{
    let mut out = String::new();
    let mut any = false;
    let mut i: usize = 0;
    while i < CAP_COUNT
        invariant
            i <= CAP_COUNT,
            out@ == listed(cap_names(bits, i as nat)),
            any == (cap_names(bits, i as nat).len() > 0),
        decreases CAP_COUNT - i,
    {
        let (bit, name) = cap(i);
        let ghost before = cap_names(bits, i as nat);
        if bits & bit != 0 {
            if any {
                out.append(", ");
            }
            out.append(name);
            any = true;
            proof {
                lemma_listed_push(before, name@);
                assert(seq![] + name@ =~= name@);
                assert(out@ =~= listed(before.push(name@)));
            }
        }
        i += 1;
    }
    let unknown: u32 = bits & !abi::CAPS_NAMED;
    let ghost names = cap_names(bits, CAP_COUNT as nat);
    if unknown != 0 {
        if any {
            out.append(", ");
        }
        out.append("unknown:0x");
        push_hex(&mut out, unknown);
        any = true;
        proof {
            let part = "unknown:0x"@ + hex(unknown as nat);
            lemma_listed_push(names, part);
            assert(out@ =~= listed(names.push(part)));
        }
    }
    if any {
        out
    } else {
        String::from_str("none")
    }
}

/// Every capability bit is reported, by its name or among the bits without one.
pub proof fn law_no_capability_is_dropped(bits: u32, position: u32)
    requires
        position < 32,
        bits & (1u32 << position) != 0,
    ensures
        position < CAP_COUNT ==> cap_names(bits, CAP_COUNT as nat).contains(
            cap_name(position as int),
        ),
        position >= CAP_COUNT ==> (bits & !abi::CAPS_NAMED) & (1u32 << position) != 0,
{
    if position < CAP_COUNT {
        assert(1u32 << position == cap_bit(position as int)) by {
            assert((1u32 << 0u32) == 0x1 && (1u32 << 1u32) == 0x2 && (1u32 << 2u32) == 0x4 && (1u32
                << 3u32) == 0x8 && (1u32 << 4u32) == 0x10 && (1u32 << 5u32) == 0x20 && (1u32
                << 6u32) == 0x40 && (1u32 << 7u32) == 0x80 && (1u32 << 8u32) == 0x100 && (1u32
                << 9u32) == 0x200 && (1u32 << 10u32) == 0x400 && (1u32 << 11u32) == 0x800 && (1u32
                << 12u32) == 0x1000 && (1u32 << 13u32) == 0x2000 && (1u32 << 14u32) == 0x4000)
                by (bit_vector);
        }
        lemma_set_bit_is_named(bits, position as int, CAP_COUNT as nat);
    } else {
        assert((bits & !0x7fffu32) & (1u32 << position) != 0) by (bit_vector)
            requires
                bits & (1u32 << position) != 0,
                15 <= position < 32;
    }
}

/// There is nothing to say exactly of no capability at all.
pub proof fn law_none_is_no_capability(bits: u32)
    ensures
        cap_parts(bits).len() == 0 <==> bits == 0,
{
    if bits == 0 {
        lemma_no_bit_no_name(CAP_COUNT as nat);
        assert(0u32 & !0x7fffu32 == 0) by (bit_vector);
    } else {
        assert(bits != 0 ==> bits & !0x7fff != 0 || bits & 0x1 != 0 || bits & 0x2 != 0 || bits & 0x4
            != 0 || bits & 0x8 != 0 || bits & 0x10 != 0 || bits & 0x20 != 0 || bits & 0x40 != 0
            || bits & 0x80 != 0 || bits & 0x100 != 0 || bits & 0x200 != 0 || bits & 0x400 != 0
            || bits & 0x800 != 0 || bits & 0x1000 != 0 || bits & 0x2000 != 0 || bits & 0x4000 != 0)
            by (bit_vector);
        if bits & !0x7fff == 0 {
            let i = choose|i: int| 0 <= i < CAP_COUNT && bits & #[trigger] cap_bit(i) != 0;
            assert(exists|i: int| 0 <= i < CAP_COUNT && bits & #[trigger] cap_bit(i) != 0) by {
                assert(cap_bit(0) == 0x1 && cap_bit(1) == 0x2 && cap_bit(2) == 0x4 && cap_bit(3)
                    == 0x8 && cap_bit(4) == 0x10 && cap_bit(5) == 0x20 && cap_bit(6) == 0x40
                    && cap_bit(7) == 0x80 && cap_bit(8) == 0x100 && cap_bit(9) == 0x200 && cap_bit(
                    10,
                ) == 0x400 && cap_bit(11) == 0x800 && cap_bit(12) == 0x1000 && cap_bit(13) == 0x2000
                    && cap_bit(14) == 0x4000);
            }
            lemma_set_bit_is_named(bits, i, CAP_COUNT as nat);
        }
    }
}

proof fn lemma_no_bit_no_name(n: nat)
    ensures
        cap_names(0, n).len() == 0,
    decreases n,
{
    if n > 0 {
        let bit = cap_bit(n - 1);
        assert(0u32 & bit == 0) by (bit_vector);
        lemma_no_bit_no_name((n - 1) as nat);
    }
}

proof fn lemma_set_bit_is_named(bits: u32, i: int, n: nat)
    requires
        0 <= i < n,
        bits & cap_bit(i) != 0,
    ensures
        cap_names(bits, n).contains(cap_name(i)),
    decreases n,
{
    let names = cap_names(bits, n);
    if i == n - 1 {
        assert(names.last() == cap_name(i));
    } else {
        let before = cap_names(bits, (n - 1) as nat);
        lemma_set_bit_is_named(bits, i, (n - 1) as nat);
        let k = before.index_of(cap_name(i));
        assert(names[k] == before[k]);
    }
}

pub open spec fn filter_name(v: u32) -> Seq<char> {
    if v == 0 {
        "hard"@
    } else if v == 1 {
        "pcf3x3"@
    } else if v == 2 {
        "pcf5x5"@
    } else {
        "pcss-lite"@
    }
}

/// A shadow filter; a number past the last one means the last one.
pub fn filter(v: u32) -> (r: &'static str)
    ensures
        r@ == filter_name(v),
{
    match v {
        0 => "hard",
        1 => "pcf3x3",
        2 => "pcf5x5",
        _ => "pcss-lite",
    }
}

pub open spec fn shading_name(v: u32) -> Seq<char> {
    if v == 0 {
        "unlit"@
    } else if v == 1 {
        "lambert"@
    } else if v == 2 {
        "textured"@
    } else if v == 3 {
        "textured-lambert"@
    } else {
        "unknown"@
    }
}

/// A shading model.
pub fn shading(v: u32) -> (r: &'static str)
    ensures
        r@ == shading_name(v),
{
    match v {
        0 => "unlit",
        1 => "lambert",
        2 => "textured",
        3 => "textured-lambert",
        _ => "unknown",
    }
}

/// The bytes before the first zero byte.
pub open spec fn until_nul(bytes: Seq<u8>) -> Seq<u8>
    decreases bytes.len(),
{
    if bytes.len() == 0 || bytes[0] == 0 {
        seq![]
    } else {
        seq![bytes[0]] + until_nul(bytes.skip(1))
    }
}

/// How many bytes stand before the first zero byte.
pub fn field_len(bytes: &[u8]) -> (r: usize)
    ensures
        r <= bytes@.len(),
        bytes@.take(r as int) == until_nul(bytes@),
{
    let mut i: usize = 0;
    assert(bytes@.skip(0) =~= bytes@);
    assert(bytes@.take(0) + until_nul(bytes@) =~= until_nul(bytes@));
    while i < bytes.len() && bytes[i] != 0
        invariant
            i <= bytes@.len(),
            until_nul(bytes@) == bytes@.take(i as int) + until_nul(bytes@.skip(i as int)),
        decreases bytes@.len() - i,
    {
        proof {
            let tail = bytes@.skip(i as int);
            assert(tail.skip(1) =~= bytes@.skip(i + 1));
            assert(bytes@.take(i as int) + (seq![tail[0]] + until_nul(tail.skip(1)))
                =~= bytes@.take(i + 1) + until_nul(bytes@.skip(i + 1)));
        }
        i += 1;
    }
    assert(bytes@.take(i as int) + until_nul(bytes@.skip(i as int)) =~= bytes@.take(i as int));
    i
}

/// A fixed-size NUL-terminated field, trimmed at the NUL. What is UTF-8 comes out
/// as it is.
pub fn field(bytes: &[u8]) -> (r: String)
    ensures
        r@ == bytes::lossy_text(until_nul(bytes@)),
        vstd::utf8::valid_utf8(until_nul(bytes@)) ==> r@ == vstd::utf8::decode_utf8(
            until_nul(bytes@),
        ),
{
    let end = field_len(bytes);
    let head = vstd::slice::slice_subrange(bytes, 0, end);
    assert(head@ =~= bytes@.take(end as int));
    bytes::lossy(head)
}

/// How many tiers the ladder has.
pub const LADDER_LEN: usize = 5;

/// A tier of the ladder, top to bottom: what a downgrade walks.
pub fn ladder(i: usize) -> (r: (u32, &'static str))
    requires
        i < LADDER_LEN,
    ensures
        r.0 == i,
        r.1@ == ladder_name(i as int),
{
    match i {
        0 => (0, "T0"),
        1 => (1, "T1"),
        2 => (2, "T2"),
        3 => (3, "T3"),
        _ => (4, "T4"),
    }
}

pub open spec fn ladder_name(i: int) -> Seq<char> {
    if i == 0 {
        "T0"@
    } else if i == 1 {
        "T1"@
    } else if i == 2 {
        "T2"@
    } else if i == 3 {
        "T3"@
    } else {
        "T4"@
    }
}

/// Nothing is named that is not there: every name listed is that of a capability whose
/// bit is set, and no more are listed than bits are set.
pub proof fn law_no_capability_is_made_up(bits: u32, k: int)
    requires
        0 <= k < cap_names(bits, CAP_COUNT as nat).len(),
    ensures
        exists|i: int|
            0 <= i < 15 && bits & #[trigger] cap_bit(i) != 0 && cap_names(bits, CAP_COUNT as nat)[k]
                == cap_name(i),
        cap_names(bits, CAP_COUNT as nat).len() <= 15,
{
    lemma_names_are_set(bits, CAP_COUNT as nat, k);
}

proof fn lemma_names_are_set(bits: u32, n: nat, k: int)
    requires
        n <= CAP_COUNT,
        0 <= k < cap_names(bits, n).len(),
    ensures
        exists|i: int|
            0 <= i < n && bits & #[trigger] cap_bit(i) != 0 && cap_names(bits, n)[k] == cap_name(i),
        cap_names(bits, n).len() <= n,
    decreases n,
{
    let rest = cap_names(bits, (n - 1) as nat);
    if rest.len() > 0 {
        lemma_names_are_set(bits, (n - 1) as nat, if k < rest.len() { k } else { 0 });
    }
    if k < rest.len() {
        let i = choose|i: int|
            0 <= i < n - 1 && bits & #[trigger] cap_bit(i) != 0 && rest[k] == cap_name(i);
        assert(bits & cap_bit(i) != 0);
    } else {
        assert(bits & cap_bit(n - 1) != 0);
    }
}

/// A field ends at its first zero byte, or goes on to its end.
pub proof fn law_a_field_ends_at_its_first_zero(bytes: Seq<u8>)
    ensures
        ({
            let t = until_nul(bytes);
            &&& t.len() <= bytes.len()
            &&& t == bytes.take(t.len() as int)
            &&& !t.contains(0)
            &&& t.len() < bytes.len() ==> bytes[t.len() as int] == 0
        }),
    decreases bytes.len(),
{
    let t = until_nul(bytes);
    if bytes.len() > 0 && bytes[0] != 0 {
        let rest = bytes.skip(1);
        law_a_field_ends_at_its_first_zero(rest);
        let u = until_nul(rest);
        assert(bytes.take(t.len() as int) =~= seq![bytes[0]] + rest.take(u.len() as int));
        if t.contains(0) {
            let i = choose|i: int| 0 <= i < t.len() && t[i] == 0;
            assert(u[i - 1] == 0);
        }
        if u.len() < rest.len() {
            assert(bytes[t.len() as int] == rest[u.len() as int]);
        }
    } else {
        assert(bytes.take(0) =~= seq![]);
    }
}

} // verus!
