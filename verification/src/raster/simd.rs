//! What a build has, and the exact operations that may be vectorised.
//!
//! Only fill, copy and the byte conversion of a readback are: every input maps to
//! one defined output, so no choice of instruction can move a pixel.
use crate::host::abi;
use crate::raster::single;
use vstd::prelude::*;

verus! {

#[derive(Clone, Copy, Debug, PartialEq, Eq, Structural)]
pub struct SimdCaps {
    pub sse2: bool,
    pub avx2: bool,
    pub neon: bool,
    pub wasm_simd128: bool,
    /// Scalar fallback: always true, and the reference the others must match.
    pub scalar: bool,
}

/// The machine a build is for.
#[derive(Clone, Copy, Debug, PartialEq, Eq, Structural)]
pub enum Arch {
    /// Either x86, with what the processor reports.
    X86 { sse2: bool, avx2: bool },
    /// Its vectors are part of the baseline.
    Aarch64,
    /// With or without the 128-bit vectors in the build.
    Wasm32 { simd128: bool },
    Other,
}

/// What a build can use: reported, not assumed.
pub fn detect(arch: Arch) -> (r: SimdCaps)
    ensures
        r.scalar,
        r.sse2 == (arch matches Arch::X86 { sse2, avx2 } && sse2),
        r.avx2 == (arch matches Arch::X86 { sse2, avx2 } && avx2),
        r.neon == (arch is Aarch64),
        r.wasm_simd128 == (arch matches Arch::Wasm32 { simd128 } && simd128),
{
    let mut caps = SimdCaps {
        sse2: false,
        avx2: false,
        neon: false,
        wasm_simd128: false,
        scalar: true,
    };
    match arch {
        Arch::X86 { sse2, avx2 } => {
            caps.sse2 = sse2;
            caps.avx2 = avx2;
        },
        Arch::Aarch64 => {
            caps.neon = true;
        },
        Arch::Wasm32 { simd128 } => {
            caps.wasm_simd128 = simd128;
        },
        Arch::Other => {},
    }
    caps
}

pub open spec fn bit_if(set: bool, bit: u32) -> u32 {
    if set {
        bit
    } else {
        0
    }
}

/// The capability bits a backend advertises for a build.
pub fn cap_mask(caps: &SimdCaps) -> (mask: u32)
    ensures
        mask == bit_if(caps.sse2, abi::CAP_SIMD_SSE2) | bit_if(caps.avx2, abi::CAP_SIMD_AVX2)
            | bit_if(caps.neon, abi::CAP_SIMD_NEON) | bit_if(
            caps.wasm_simd128,
            abi::CAP_SIMD_WASM128,
        ),
        (mask & abi::CAP_SIMD_SSE2 != 0) == caps.sse2,
        (mask & abi::CAP_SIMD_AVX2 != 0) == caps.avx2,
        (mask & abi::CAP_SIMD_NEON != 0) == caps.neon,
        (mask & abi::CAP_SIMD_WASM128 != 0) == caps.wasm_simd128,
{
    let a: u32 = if caps.sse2 {
        abi::CAP_SIMD_SSE2
    } else {
        0
    };
    let b: u32 = if caps.avx2 {
        abi::CAP_SIMD_AVX2
    } else {
        0
    };
    let c: u32 = if caps.neon {
        abi::CAP_SIMD_NEON
    } else {
        0
    };
    let d: u32 = if caps.wasm_simd128 {
        abi::CAP_SIMD_WASM128
    } else {
        0
    };
    proof {
        let mask = a | b | c | d;
        assert((mask & 0x200u32 != 0) == (a != 0) && (mask & 0x400u32 != 0) == (b != 0) && (mask
            & 0x800u32 != 0) == (c != 0) && (mask & 0x1000u32 != 0) == (d != 0)) by (bit_vector)
            requires
                mask == a | b | c | d,
                a == 0u32 || a == 0x200u32,
                b == 0u32 || b == 0x400u32,
                c == 0u32 || c == 0x800u32,
                d == 0u32 || d == 0x1000u32;
    }
    a | b | c | d
}

/// `dst[i] = value`, for a slice of numbers.
pub fn fill_f32<T: Copy>(dst: &mut [T], value: T)
    ensures
        final(dst)@ == Seq::new(old(dst)@.len(), |i: int| value),
{
    fill_from(dst, 0, value);
    assert(dst@ =~= Seq::new(old(dst)@.len(), |i: int| value));
}

/// The scalar definition that any other one is held to.
pub fn fill_f32_scalar<T: Copy>(dst: &mut [T], value: T)
    ensures
        final(dst)@ == Seq::new(old(dst)@.len(), |i: int| value),
{
    fill_from(dst, 0, value);
    assert(dst@ =~= Seq::new(old(dst)@.len(), |i: int| value));
}

fn fill_from<T: Copy>(dst: &mut [T], from: usize, value: T)
    requires
        from <= old(dst)@.len(),
    ensures
        final(dst)@ == old(dst)@.take(from as int) + Seq::new(
            (old(dst)@.len() - from) as nat,
            |i: int| value,
        ),
{
    let ghost before = dst@;
    let mut i: usize = from;
    while i < dst.len()
        invariant
            from <= i <= dst@.len(),
            dst@.len() == before.len(),
            forall|k: int| 0 <= k < from ==> #[trigger] dst@[k] == before[k],
            forall|k: int| from <= k < i ==> #[trigger] dst@[k] == value,
        decreases dst@.len() - i,
    {
        dst[i] = value;
        i += 1;
    }
    assert(dst@ =~= before.take(from as int) + Seq::new(
        (before.len() - from) as nat,
        |i: int| value,
    ));
}

/// `dst[i] = src[i]`, or `dst[i] = value` where `src` has no such element.
pub fn copy_or_fill<T: Copy>(dst: &mut [T], src: Option<&[T]>, value: T)
    ensures
        final(dst)@ == Seq::new(
            old(dst)@.len(),
            |i: int|
                match src {
                    Some(s) if i < s@.len() => s@[i],
                    _ => value,
                },
        ),
{
    let ghost before = dst@;
    match src {
        Some(s) => {
            let n: usize = if s.len() < dst.len() {
                s.len()
            } else {
                dst.len()
            };
            let mut i: usize = 0;
            while i < n
                invariant
                    i <= n <= dst@.len(),
                    n <= s@.len(),
                    dst@.len() == before.len(),
                    forall|k: int| 0 <= k < i ==> #[trigger] dst@[k] == s@[k],
                decreases n - i,
            {
                dst[i] = s[i];
                i += 1;
            }
            fill_from(dst, n, value);
        },
        None => {
            fill_from(dst, 0, value);
        },
    }
    assert(dst@ =~= Seq::new(
        before.len(),
        |i: int|
            match src {
                Some(s) if i < s@.len() => s@[i],
                _ => value,
            },
    ));
}

/// How many components a conversion covers: the whole pixels of both sides.
pub open spec fn converted_len(src: nat, dst: nat) -> int {
    if src <= dst {
        (src / 4 * 4) as int
    } else {
        (dst / 4 * 4) as int
    }
}

pub open spec fn converted(src: Seq<u32>, dst: Seq<u8>) -> Seq<u8> {
    Seq::new(
        dst.len(),
        |i: int|
            if i < converted_len(src.len(), dst.len()) {
                single::byte_of(src[i])
            } else {
                dst[i]
            },
    )
}

/// Converts tightly packed components, given as bit patterns, to bytes.
///
/// Writes as many whole pixels as both slices hold; a partial pixel at the end of
/// either is ignored.
pub fn rgba_f32_to_unorm8(src: &[u32], dst: &mut [u8])
    ensures
        final(dst)@ == converted(src@, old(dst)@),
{
    let ghost before = dst@;
    assert(src.len() == src@.len() && dst.len() == dst@.len());
    let pixels: usize = if src.len() <= dst.len() {
        src.len() / 4
    } else {
        dst.len() / 4
    };
    convert_into(src, 0, dst, 0, pixels * 4);
    assert(dst@ =~= converted(src@, before));
}

/// Converts `n` components of one slice into another, each from its own place.
pub fn convert_into(src: &[u32], from: usize, dst: &mut [u8], at: usize, n: usize)
    requires
        from + n <= src@.len(),
        at + n <= old(dst)@.len(),
    ensures
        final(dst)@.len() == old(dst)@.len(),
        forall|k: int|
            0 <= k < final(dst)@.len() ==> #[trigger] final(dst)@[k] == if at <= k < at + n {
                single::byte_of(src@[from + k - at])
            } else {
                old(dst)@[k]
            },
{
    let ghost before = dst@;
    assert(src.len() == src@.len() && dst.len() == dst@.len());
    let mut i: usize = 0;
    while i < n
        invariant
            i <= n,
            from + n <= src@.len() <= usize::MAX,
            at + n <= dst@.len() <= usize::MAX,
            dst@.len() == before.len(),
            forall|k: int|
                0 <= k < dst@.len() ==> #[trigger] dst@[k] == if at <= k < at + i {
                    single::byte_of(src@[from + k - at])
                } else {
                    before[k]
                },
        decreases n - i,
    {
        dst[at + i] = single::to_u8(src[from + i]);
        i += 1;
    }
}

/// Whole pixels are converted, as many as both sides hold, every channel to its byte;
/// the rest is left alone.
pub proof fn law_whole_pixels_are_converted(src: Seq<u32>, dst: Seq<u8>, i: int)
    requires
        0 <= i < dst.len(),
    ensures
        converted(src, dst).len() == dst.len(),
        4 * (i / 4) + 4 <= src.len() && 4 * (i / 4) + 4 <= dst.len() ==> converted(src, dst)[i]
            == single::byte_of(src[i]),
        4 * (i / 4) + 4 > src.len() || 4 * (i / 4) + 4 > dst.len() ==> converted(src, dst)[i]
            == dst[i],
{
}

} // verus!
