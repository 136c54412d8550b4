//! Mip chain generation.
//!
//! A box filter with a fixed sample order and integer weights, so the result is
//! bit-identical everywhere.
use crate::error::{Code, Error};
use crate::host_vec::HostVec;
use crate::num;
use vstd::prelude::*;

verus! {

/// One level: RGBA8, tightly packed rows.
pub struct MipLevel {
    pub width: u32,
    pub height: u32,
    pub pixels: HostVec<u8>,
}

/// The full chain, level 0 first.
pub struct MipChain {
    pub levels: HostVec<MipLevel>,
}

/// Half of a side, and at least one pixel.
pub open spec fn half(side: u32) -> u32 {
    if side / 2 > 1 {
        side / 2
    } else {
        1
    }
}

/// A side, and at least one pixel.
pub open spec fn side_of(side: u32) -> u32 {
    if side > 1 {
        side
    } else {
        1
    }
}

/// How many levels a chain has when it halves until one pixel is left.
pub open spec fn levels_of(width: u32, height: u32) -> nat
    decreases side_of(width) + side_of(height),
{
    if width <= 1 && height <= 1 {
        1
    } else {
        1 + levels_of(half(width), half(height))
    }
}

/// The size of level `level`.
pub open spec fn size_at(width: u32, height: u32, level: nat) -> (u32, u32)
    decreases level,
{
    if level == 0 {
        (width, height)
    } else {
        let (w, h) = size_at(width, height, (level - 1) as nat);
        (half(w), half(h))
    }
}

/// Channel `c` of pixel `(x, y)` of an image `width` pixels wide.
pub open spec fn channel(pixels: Seq<u8>, width: u32, x: int, y: int, c: int) -> u8 {
    pixels[(y * width + x) * 4 + c]
}

/// The mean of the four (or fewer) pixels under pixel `(x, y)` of the level below,
/// rounded half up. A side of one pixel is its own neighbour.
pub open spec fn filtered(pixels: Seq<u8>, width: u32, height: u32, x: int, y: int, c: int) -> u8 {
    let (x0, x1) = (num::imin(2 * x, width - 1), num::imin(2 * x + 1, width - 1));
    let (y0, y1) = (num::imin(2 * y, height - 1), num::imin(2 * y + 1, height - 1));
    ((channel(pixels, width, x0, y0, c) + channel(pixels, width, x1, y0, c) + channel(
        pixels,
        width,
        x0,
        y1,
        c,
    ) + channel(pixels, width, x1, y1, c) + 2) / 4) as u8
}

/// The level below an image.
pub open spec fn level_below(pixels: Seq<u8>, width: u32, height: u32) -> Seq<u8> {
    let w = half(width) as int;
    Seq::new(
        (w * half(height) * 4) as nat,
        |i: int| filtered(pixels, width, height, i / 4 % w, i / 4 / w, i % 4),
    )
}

/// The pixels of level `level` of the chain over an image.
pub open spec fn pixels_at(pixels: Seq<u8>, width: u32, height: u32, level: nat) -> Seq<u8>
    decreases level,
{
    if level == 0 {
        pixels.take(width * height * 4)
    } else {
        let (w, h) = size_at(width, height, (level - 1) as nat);
        level_below(pixels_at(pixels, width, height, (level - 1) as nat), w, h)
    }
}

/// The bytes of the levels together.
pub open spec fn total_bytes(levels: Seq<MipLevel>) -> int
    decreases levels.len(),
{
    if levels.len() == 0 {
        0
    } else {
        total_bytes(levels.drop_last()) + levels.last().pixels@.len()
    }
}

fn halve(side: u32) -> (r: u32)
    ensures
        r == half(side),
{
    if side / 2 > 1 {
        side / 2
    } else {
        1
    }
}

proof fn lemma_levels_bound(width: u32, height: u32, bits: nat)
    requires
        bits <= 32,
        width <= vstd::arithmetic::power2::pow2(bits),
        height <= vstd::arithmetic::power2::pow2(bits),
    ensures
        levels_of(width, height) <= bits + 1,
    decreases bits,
{
    vstd::arithmetic::power2::lemma2_to64();
    if width > 1 || height > 1 {
        if bits == 0 {
            assert(false);
        } else {
            vstd::arithmetic::power2::lemma_pow2_unfold(bits);
            vstd::arithmetic::power2::lemma_pow2_pos((bits - 1) as nat);
            lemma_levels_bound(half(width), half(height), (bits - 1) as nat);
        }
    }
}

impl MipChain {
    /// How many levels the full chain has.
    pub fn level_count(width: u32, height: u32) -> (levels: u32)
        ensures
            levels == levels_of(side_of(width), side_of(height)),
            1 <= levels <= 33,
    {
        let mut levels: u32 = 1;
        let mut w: u32 = if width > 1 { width } else { 1 };
        let mut h: u32 = if height > 1 { height } else { 1 };
        proof {
            vstd::arithmetic::power2::lemma2_to64();
            lemma_levels_bound(w, h, 32);
        }
        while w > 1 || h > 1
            invariant
                w >= 1,
                h >= 1,
                levels + levels_of(w, h) == 1 + levels_of(side_of(width), side_of(height)),
                levels_of(side_of(width), side_of(height)) <= 33,
                levels >= 1,
            decreases w + h,
        {
            w = halve(w);
            h = halve(h);
            levels += 1;
        }
        levels
    }

    pub fn level(&self, index: usize) -> (r: Option<&MipLevel>)
        ensures
            r is Some <==> index < self.levels@.len(),
            r matches Some(l) ==> *l == self.levels@[index as int],
    {
        if index < self.levels.len() {
            Some(&self.levels.as_slice()[index])
        } else {
            None
        }
    }

    /// Total bytes across every level.
    pub fn bytes(&self) -> (n: u64)
        requires
            total_bytes(self.levels@) <= u64::MAX,
        ensures
            n == total_bytes(self.levels@),
    {
        let mut n: u64 = 0;
        let mut i: usize = 0;
        while i < self.levels.len()
            invariant
                i <= self.levels@.len(),
                n == total_bytes(self.levels@.take(i as int)),
                total_bytes(self.levels@) <= u64::MAX,
            decreases self.levels@.len() - i,
        {
            proof {
                assert(self.levels@.take(i + 1).drop_last() =~= self.levels@.take(i as int));
                lemma_total_prefix(self.levels@, i + 1);
            }
            n = n + self.levels.as_slice()[i].pixels.len() as u64;
            i += 1;
        }
        assert(self.levels@.take(i as int) =~= self.levels@);
        n
    }

    /// The chain is the first `levels` levels over the image.
    pub open spec fn is_chain(
        self,
        width: u32,
        height: u32,
        pixels: Seq<u8>,
        levels: int,
    ) -> bool {
        &&& self.levels.wf()
        &&& self.levels@.len() == levels
        &&& forall|k: int|
            0 <= k < levels ==> {
                let level = #[trigger] self.levels@[k];
                &&& (level.width, level.height) == size_at(width, height, k as nat)
                &&& level.pixels@ == pixels_at(pixels, width, height, k as nat)
            }
    }
}

proof fn lemma_total_prefix(levels: Seq<MipLevel>, n: int)
    requires
        0 <= n <= levels.len(),
    ensures
        total_bytes(levels.take(n)) <= total_bytes(levels),
    decreases levels.len(),
{
    if n == levels.len() {
        assert(levels.take(n) =~= levels);
    } else {
        lemma_total_prefix(levels.drop_last(), n);
        assert(levels.drop_last().take(n) =~= levels.take(n));
    }
}

/// Where channel `c` of pixel `(x, y)` stands.
proof fn lemma_place(w: int, h: int, x: int, y: int, c: int)
    requires
        0 <= x < w,
        0 <= y < h,
        0 <= c < 4,
    ensures
        ({
            let i = (y * w + x) * 4 + c;
            &&& 0 <= i < w * h * 4
            &&& i % 4 == c
            &&& i / 4 % w == x
            &&& i / 4 / w == y
        }),
        0 <= y * w + x < w * h,
        0 <= y * w,
{
    assert(0 <= y * w && y * w + w <= w * h) by (nonlinear_arith)
        requires
            0 <= y,
            y + 1 <= h,
            0 <= w;
    let p = y * w + x;
    assert((p * 4 + c) / 4 == p && (p * 4 + c) % 4 == c);
    vstd::arithmetic::div_mod::lemma_fundamental_div_mod_converse(p, w, y, x);
}

/// The level below an image: a box filter over the up-to-2x2 footprint, with
/// integer accumulators so that the rounding is exact. Its room is asked for first.
fn downsample(pixels: &[u8], width: u32, height: u32) -> (r: Result<HostVec<u8>, Error>)
    requires
        width > 0,
        height > 0,
        pixels@.len() == width * height * 4,
    ensures
        match r {
            Ok(out) => out@ == level_below(pixels@, width, height),
            Err(e) => is_refusal(e),
        },
{
    let w: u32 = halve(width);
    let h: u32 = halve(height);
    let ghost goal = level_below(pixels@, width, height);
    proof {
        num::lemma_product_is_nat(w as int, h as int);
        assert(w * h <= width * height) by (nonlinear_arith)
            requires
                0 < w <= width,
                0 < h <= height;
        assert(w as int * 1 <= w * h) by (nonlinear_arith)
            requires
                1 <= h,
                0 <= w;
        assert(pixels.len() == pixels@.len());
    }
    let mut out: HostVec<u8> = HostVec::new();
    match out.try_reserve((w as usize) * (h as usize) * 4) {
        Ok(()) => {},
        Err(e) => return Err(e),
    }
    let mut y: u32 = 0;
    while y < h
        invariant
            width > 0,
            height > 0,
            w == half(width),
            h == half(height),
            pixels@.len() == width * height * 4,
            goal == level_below(pixels@, width, height),
            goal.len() == w * h * 4,
            y <= h,
            out.wf(),
            out.room() >= w * h * 4,
            out@.len() == y * w * 4,
            forall|i: int| 0 <= i < out@.len() ==> #[trigger] out@[i] == goal[i],
        decreases h - y,
    {
        let mut x: u32 = 0;
        while x < w
            invariant
                width > 0,
                height > 0,
                w == half(width),
                h == half(height),
                pixels@.len() == width * height * 4,
                goal == level_below(pixels@, width, height),
                goal.len() == w * h * 4,
                y < h,
                x <= w,
                out.wf(),
                out.room() >= w * h * 4,
                out@.len() == (y * w + x) * 4,
                forall|i: int| 0 <= i < out@.len() ==> #[trigger] out@[i] == goal[i],
            decreases w - x,
        {
            let x0: u32 = if 2 * (x as u64) < (width - 1) as u64 { 2 * x } else { width - 1 };
            let x1: u32 = if 2 * (x as u64) + 1 < (width - 1) as u64 { 2 * x + 1 } else { width - 1
            };
            let y0: u32 = if 2 * (y as u64) < (height - 1) as u64 { 2 * y } else { height - 1 };
            let y1: u32 = if 2 * (y as u64) + 1 < (height - 1) as u64 { 2 * y + 1 } else { height
                - 1 };
            let mut c: usize = 0;
            while c < 4
                invariant
                    width > 0,
                    height > 0,
                    w == half(width),
                    h == half(height),
                    pixels@.len() == width * height * 4,
                    goal == level_below(pixels@, width, height),
                    goal.len() == w * h * 4,
                    y < h,
                    x < w,
                    c <= 4,
                    x0 == num::imin(2 * x, width - 1),
                    x1 == num::imin(2 * x + 1, width - 1),
                    y0 == num::imin(2 * y, height - 1),
                    y1 == num::imin(2 * y + 1, height - 1),
                    out.wf(),
                    out.room() >= w * h * 4,
                    out@.len() == (y * w + x) * 4 + c,
                    forall|i: int| 0 <= i < out@.len() ==> #[trigger] out@[i] == goal[i],
                decreases 4 - c,
            {
                let sum: u32 = get(pixels, width, height, x0, y0, c) as u32 + get(
                    pixels,
                    width,
                    height,
                    x1,
                    y0,
                    c,
                ) as u32 + get(pixels, width, height, x0, y1, c) as u32 + get(
                    pixels,
                    width,
                    height,
                    x1,
                    y1,
                    c,
                ) as u32;
                proof {
                    lemma_place(w as int, h as int, x as int, y as int, c as int);
                }
                match out.push(((sum + 2) / 4) as u8) {
                    Ok(()) => {},
                    Err(e) => return Err(e),
                }
                c += 1;
            }
            assert((y * w + x) * 4 + 4 == (y * w + (x + 1)) * 4) by (nonlinear_arith);
            x += 1;
        }
        assert((y * w + w) * 4 == (y + 1) * w * 4) by (nonlinear_arith);
        y += 1;
    }
    assert(h * w * 4 == w * h * 4) by (nonlinear_arith);
    assert(out@ =~= goal);
    Ok(out)
}

fn get(pixels: &[u8], width: u32, height: u32, x: u32, y: u32, c: usize) -> (v: u8)
    requires
        pixels@.len() == width * height * 4,
        x < width,
        y < height,
        c < 4,
    ensures
        v == channel(pixels@, width, x as int, y as int, c as int),
{
    proof {
        lemma_place(width as int, height as int, x as int, y as int, c as int);
        assert(pixels.len() == pixels@.len());
    }
    pixels[((y as usize) * (width as usize) + x as usize) * 4 + c]
}

/// The bytes in a vector of their own.
fn copy_of(bytes: &[u8]) -> (r: Result<HostVec<u8>, Error>)
    ensures
        match r {
            Ok(v) => v@ == bytes@,
            Err(e) => is_refusal(e),
        },
{
    let mut v: HostVec<u8> = HostVec::new();
    match v.resize(bytes.len(), 0) {
        Ok(()) => {},
        Err(e) => return Err(e),
    }
    let mut i: usize = 0;
    while i < bytes.len()
        invariant
            v.wf(),
            i <= bytes@.len() == v@.len(),
            forall|k: int| 0 <= k < i ==> #[trigger] v@[k] == bytes@[k],
        decreases bytes@.len() - i,
    {
        v.set(i, bytes[i]);
        i += 1;
    }
    assert(v@ =~= bytes@);
    Ok(v)
}

/// The levels a request asks for: all of them for 0, and no more than there are.
pub open spec fn wanted_levels(width: u32, height: u32, mip_levels: u32) -> int {
    let full = levels_of(width, height) as int;
    if mip_levels == 0 || full < mip_levels {
        full
    } else {
        mip_levels as int
    }
}

/// An allocation was refused.
pub open spec fn is_refusal(e: Error) -> bool {
    e.says(Code::OutOfMemory, "capacity overflow"@) || e.says(
        Code::OutOfMemory,
        "the host allocator refused"@,
    )
}

/// Generates `mip_levels` levels (0 means "the full chain") from RGBA8 pixels. An
/// image that cannot have a chain is told apart from one there is no memory for.
pub fn generate_mip_chain(width: u32, height: u32, rgba8: &[u8], mip_levels: u32) -> (r: Result<
    MipChain,
    Error,
>)
    ensures
        width == 0 || height == 0 || rgba8@.len() < width * height * 4 ==> r is Err,
        r matches Err(e) ==> if width == 0 || height == 0 {
            e.says(Code::InvalidArgument, "zero-sized texture"@)
        } else if rgba8@.len() < width * height * 4 {
            e.says(Code::InvalidArgument, "texture upload is smaller than its dimensions"@)
        } else {
            is_refusal(e)
        },
        r matches Ok(chain) ==> chain.is_chain(
            width,
            height,
            rgba8@,
            wanted_levels(width, height, mip_levels),
        ),
{
    if width == 0 || height == 0 {
        return Err(Error::new(Code::InvalidArgument, "zero-sized texture"));
    }
    assert(0 <= width * height <= 0xffff_ffff * 0xffff_ffff) by (nonlinear_arith)
        requires
            0 <= width <= 0xffff_ffff,
            0 <= height <= 0xffff_ffff;
    if (rgba8.len() as u128) < (width as u128) * (height as u128) * 4 {
        return Err(
            Error::new(
                Code::InvalidArgument,
                "texture upload is smaller than its dimensions",
            ),
        );
    }
    assert(width as int * 1 <= width * height) by (nonlinear_arith)
        requires
            1 <= height,
            0 <= width;
    assert(rgba8.len() == rgba8@.len());
    let expected: usize = (width as usize) * (height as usize) * 4;
    let full: u32 = MipChain::level_count(width, height);
    let levels: u32 = if mip_levels == 0 || full < mip_levels { full } else { mip_levels };
    let mut chain = MipChain { levels: HostVec::new() };
    let base = match copy_of(&rgba8[0..expected]) {
        Ok(base) => base,
        Err(e) => return Err(e),
    };
    assert(base@ =~= rgba8@.take(expected as int));
    match chain.levels.push(MipLevel { width, height, pixels: base }) {
        Ok(()) => {},
        Err(e) => return Err(e),
    }
    let mut level: u32 = 1;
    while level < levels
        invariant
            1 <= level <= levels,
            width > 0,
            height > 0,
            rgba8@.len() >= width * height * 4,
            0 <= width * height,
            chain.is_chain(width, height, rgba8@, level as int),
        decreases levels - level,
    {
        let prev: &MipLevel = &chain.levels.as_slice()[(level - 1) as usize];
        let (pw, ph): (u32, u32) = (prev.width, prev.height);
        proof {
            lemma_level_size(rgba8@, width, height, (level - 1) as nat);
        }
        let pixels = match downsample(prev.pixels.as_slice(), pw, ph) {
            Ok(pixels) => pixels,
            Err(e) => return Err(e),
        };
        match chain.levels.push(MipLevel { width: halve(pw), height: halve(ph), pixels }) {
            Ok(()) => {},
            Err(e) => return Err(e),
        }
        level += 1;
    }
    Ok(chain)
}

/// Every level is as large as it says.
pub proof fn lemma_level_size(pixels: Seq<u8>, width: u32, height: u32, level: nat)
    requires
        width > 0,
        height > 0,
        width * height * 4 <= pixels.len(),
    ensures
        ({
            let (w, h) = size_at(width, height, level);
            w > 0 && h > 0 && pixels_at(pixels, width, height, level).len() == w * h * 4
        }),
    decreases level,
{
    num::lemma_product_is_nat(width as int, height as int);
    if level > 0 {
        lemma_level_size(pixels, width, height, (level - 1) as nat);
        let (w, h) = size_at(width, height, level);
        num::lemma_product_is_nat(w as int, h as int);
    }
}

/// A full chain halves until one pixel is left.
pub proof fn law_a_full_chain_ends_at_one_pixel(width: u32, height: u32)
    requires
        width > 0,
        height > 0,
    ensures
        size_at(width, height, (levels_of(width, height) - 1) as nat) == (1u32, 1u32),
    decreases width + height,
{
    if width > 1 || height > 1 {
        law_a_full_chain_ends_at_one_pixel(half(width), half(height));
        lemma_size_shift(width, height, (levels_of(half(width), half(height)) - 1) as nat);
    }
}

proof fn lemma_size_shift(width: u32, height: u32, level: nat)
    ensures
        size_at(width, height, level + 1) == size_at(half(width), half(height), level),
    decreases level,
{
    if level > 0 {
        lemma_size_shift(width, height, (level - 1) as nat);
        assert(size_at(width, height, level) == size_at(
            half(width),
            half(height),
            (level - 1) as nat,
        ));
    } else {
        assert(size_at(width, height, 0) == (width, height));
    }
}

/// The checkerboard: cells of `cell` pixels, `a` in the corner.
pub open spec fn checker_at(cell: u32, a: [u8; 4], b: [u8; 4], x: int, y: int, c: int) -> u8 {
    let cell = side_of(cell) as int;
    if (x / cell + y / cell) % 2 == 0 {
        a[c]
    } else {
        b[c]
    }
}

/// Where texel `(x, y)` of an image stands: rows one behind the other, four bytes each.
proof fn lemma_texel(pixels: Seq<u8>, w: int, h: int, x: int, y: int, c: int)
    requires
        0 <= x < w,
        0 <= y < h,
        0 <= c < 4,
        pixels.len() == w * h * 4,
    ensures
        0 <= 4 * (w * y + x) + c < pixels.len(),
        4 * (w * y + x) + c == (y * w + x) * 4 + c,
{
    lemma_place(w, h, x, y, c);
    assert(w * y == y * w) by (nonlinear_arith);
}

/// The box filter weighs its whole footprint: four times a texel of the level below
/// is the sum of the two by two texels above it, to the nearest multiple of four, a
/// half rounded up. Where a side has no second texel the last one counts for it.
pub proof fn law_a_level_is_the_mean_of_four_texels(
    pixels: Seq<u8>,
    width: u32,
    height: u32,
    x: int,
    y: int,
    c: int,
)
    requires
        width > 0,
        height > 0,
        pixels.len() == width * height * 4,
        0 <= x < width / 2 || x == 0,
        0 <= y < height / 2 || y == 0,
        0 <= c < 4,
    ensures
        ({
            let w = if width == 1 { 1 } else { width / 2 } as int;
            let right = if 2 * x + 1 < width { 2 * x + 1 } else { 2 * x };
            let low = if 2 * y + 1 < height { 2 * y + 1 } else { 2 * y };
            let sum = pixels[4 * (width * (2 * y) + 2 * x) + c] + pixels[4 * (width * (2 * y)
                + right) + c] + pixels[4 * (width * low + 2 * x) + c] + pixels[4 * (width * low
                + right) + c];
            let texel = level_below(pixels, width, height)[4 * (w * y + x) + c];
            sum - 2 < 4 * texel <= sum + 2
        }),
{
    let w = if width == 1 { 1 } else { width / 2 } as int;
    let h = if height == 1 { 1 } else { height / 2 } as int;
    let right = if 2 * x + 1 < width { 2 * x + 1 } else { 2 * x };
    let low = if 2 * y + 1 < height { 2 * y + 1 } else { 2 * y };
    lemma_place(w, h, x, y, c);
    assert(w * y == y * w) by (nonlinear_arith);
    lemma_texel(pixels, width as int, height as int, 2 * x, 2 * y, c);
    lemma_texel(pixels, width as int, height as int, right, 2 * y, c);
    lemma_texel(pixels, width as int, height as int, 2 * x, low, c);
    lemma_texel(pixels, width as int, height as int, right, low, c);
}

/// Raising one of the four texels under a texel of the level below by four raises
/// that texel by one: no place of the footprint counts less than another.
pub proof fn law_every_texel_of_a_footprint_counts(
    pixels: Seq<u8>,
    width: u32,
    height: u32,
    x: int,
    y: int,
    c: int,
    i: int,
    j: int,
)
    requires
        width % 2 == 0,
        height % 2 == 0,
        pixels.len() == width * height * 4,
        0 <= x < width / 2,
        0 <= y < height / 2,
        0 <= c < 4,
        0 <= i < 2,
        0 <= j < 2,
        pixels[4 * (width * (2 * y + j) + (2 * x + i)) + c] <= 251,
    ensures
        ({
            let at = 4 * (width * (2 * y + j) + (2 * x + i)) + c;
            let raised = pixels.update(at, (pixels[at] + 4) as u8);
            let place = 4 * ((width / 2) * y + x) + c;
            level_below(raised, width, height)[place] == level_below(pixels, width, height)[place]
                + 1
        }),
{
    let at = 4 * (width * (2 * y + j) + (2 * x + i)) + c;
    let raised = pixels.update(at, (pixels[at] + 4) as u8);
    let (w, h) = (width as int, height as int);
    lemma_texel(pixels, w, h, 2 * x + i, 2 * y + j, c);
    law_a_level_is_the_mean_of_four_texels(pixels, width, height, x, y, c);
    law_a_level_is_the_mean_of_four_texels(raised, width, height, x, y, c);
    lemma_texel(pixels, w, h, 2 * x, 2 * y, c);
    lemma_texel(pixels, w, h, 2 * x + 1, 2 * y, c);
    lemma_texel(pixels, w, h, 2 * x, 2 * y + 1, c);
    lemma_texel(pixels, w, h, 2 * x + 1, 2 * y + 1, c);
    assert(w * (2 * y + 1) == w * (2 * y) + w) by (nonlinear_arith);
}

/// Flipping an image upside down flips the level below it, and mirroring it mirrors
/// the level.
pub proof fn law_a_flipped_image_has_the_flipped_level(
    pixels: Seq<u8>,
    flipped: Seq<u8>,
    mirrored: Seq<u8>,
    width: u32,
    height: u32,
    x: int,
    y: int,
    c: int,
)
    requires
        width % 2 == 0,
        height % 2 == 0,
        pixels.len() == width * height * 4,
        flipped.len() == pixels.len(),
        mirrored.len() == pixels.len(),
        forall|i: int, j: int, k: int|
            #![trigger flipped[4 * (width * j + i) + k]]
            0 <= i < width && 0 <= j < height && 0 <= k < 4 ==> flipped[4 * (width * j + i) + k]
                == pixels[4 * (width * (height - 1 - j) + i) + k],
        forall|i: int, j: int, k: int|
            #![trigger mirrored[4 * (width * j + i) + k]]
            0 <= i < width && 0 <= j < height && 0 <= k < 4 ==> mirrored[4 * (width * j + i) + k]
                == pixels[4 * (width * j + (width - 1 - i)) + k],
        0 <= x < width / 2,
        0 <= y < height / 2,
        0 <= c < 4,
    ensures
        ({
            let (w, h) = (width as int / 2, height as int / 2);
            let level = level_below(pixels, width, height);
            &&& level_below(flipped, width, height)[4 * (w * y + x) + c] == level[4 * (w * (h - 1
                - y) + x) + c]
            &&& level_below(mirrored, width, height)[4 * (w * y + x) + c] == level[4 * (w * y + (w
                - 1 - x)) + c]
        }),
{
    let (w, h) = (width as int / 2, height as int / 2);
    law_a_level_is_the_mean_of_four_texels(flipped, width, height, x, y, c);
    law_a_level_is_the_mean_of_four_texels(mirrored, width, height, x, y, c);
    law_a_level_is_the_mean_of_four_texels(pixels, width, height, x, h - 1 - y, c);
    law_a_level_is_the_mean_of_four_texels(pixels, width, height, w - 1 - x, y, c);
    assert(height - 1 - 2 * y == 2 * (h - 1 - y) + 1);
    assert(height - 1 - (2 * y + 1) == 2 * (h - 1 - y));
    assert(width - 1 - 2 * x == 2 * (w - 1 - x) + 1);
    assert(width - 1 - (2 * x + 1) == 2 * (w - 1 - x));
}

/// In a chain of levels the first is the image, every other is half the size of the
/// one before it, no side less than a pixel, and each of its texels is the mean of the
/// four above it.
pub proof fn law_each_level_halves_the_one_before(
    chain: MipChain,
    width: u32,
    height: u32,
    image: Seq<u8>,
    levels: int,
    k: int,
    x: int,
    y: int,
    c: int,
)
    requires
        width > 0,
        height > 0,
        width * height * 4 <= image.len(),
        chain.is_chain(width, height, image, levels),
        0 < k < levels,
        0 <= x < chain.levels@[k].width,
        0 <= y < chain.levels@[k].height,
        0 <= c < 4,
    ensures
        chain.levels@[0].width == width,
        chain.levels@[0].height == height,
        chain.levels@[0].pixels@ == image.take(width * height * 4),
        ({
            let (above, below) = (chain.levels@[k - 1], chain.levels@[k]);
            let (aw, ah) = (above.width as int, above.height as int);
            let right = if 2 * x + 1 < aw { 2 * x + 1 } else { 2 * x };
            let low = if 2 * y + 1 < ah { 2 * y + 1 } else { 2 * y };
            let p = above.pixels@;
            let sum = p[4 * (aw * (2 * y) + 2 * x) + c] + p[4 * (aw * (2 * y) + right) + c] + p[4
                * (aw * low + 2 * x) + c] + p[4 * (aw * low + right) + c];
            let texel = below.pixels@[4 * (below.width * y + x) + c];
            &&& below.width == if aw == 1 { 1 } else { aw / 2 }
            &&& below.height == if ah == 1 { 1 } else { ah / 2 }
            &&& p.len() == 4 * (aw * ah)
            &&& below.pixels@.len() == 4 * (below.width * below.height)
            &&& sum - 2 < 4 * texel <= sum + 2
        }),
{
    assert(size_at(width, height, 0) == (width, height));
    assert(pixels_at(image, width, height, 0) == image.take(width * height * 4));
    lemma_level_size(image, width, height, k as nat);
    lemma_level_size(image, width, height, (k - 1) as nat);
    let (above, below) = (chain.levels@[k - 1], chain.levels@[k]);
    assert(chain.levels@[0].pixels@ == pixels_at(image, width, height, 0));
    assert(above.pixels@ == pixels_at(image, width, height, (k - 1) as nat));
    assert(below.pixels@ == level_below(above.pixels@, above.width, above.height));
    law_a_level_is_the_mean_of_four_texels(above.pixels@, above.width, above.height, x, y, c);
}

/// A full chain has as many levels as the longer side can be halved: one more than its
/// binary logarithm, rounded down.
pub proof fn law_a_full_chain_has_a_level_for_each_halving(width: u32, height: u32)
    requires
        width > 0,
        height > 0,
    ensures
        ({
            let n = levels_of(width, height);
            let longest = if width > height { width } else { height };
            &&& n >= 1
            &&& vstd::arithmetic::power2::pow2((n - 1) as nat) <= longest
            &&& longest < vstd::arithmetic::power2::pow2(n)
        }),
    decreases width + height,
{
    vstd::arithmetic::power2::lemma2_to64();
    if width > 1 || height > 1 {
        law_a_full_chain_has_a_level_for_each_halving(half(width), half(height));
        let n = levels_of(width, height);
        vstd::arithmetic::power2::lemma_pow2_unfold(n);
        vstd::arithmetic::power2::lemma_pow2_unfold((n - 1) as nat);
    }
}

/// A request is given the levels it asks for, or all there are when it asks for none
/// or for more.
pub proof fn law_a_request_has_no_more_levels_than_there_are(width: u32, height: u32, asked: u32)
    ensures
        wanted_levels(width, height, 0) == levels_of(width, height),
        0 < asked <= levels_of(width, height) ==> wanted_levels(width, height, asked) == asked,
        asked > levels_of(width, height) ==> wanted_levels(width, height, asked) == levels_of(
            width,
            height,
        ),
{
}

/// A checkerboard starts with the first colour and changes it from cell to cell, along
/// a row and down a column.
pub proof fn law_a_checkerboard_alternates(
    cell: u32,
    a: [u8; 4],
    b: [u8; 4],
    x: int,
    y: int,
    c: int,
)
    requires
        cell > 0,
        0 <= x,
        0 <= y,
        0 <= c < 4,
    ensures
        x < cell && y < cell ==> checker_at(cell, a, b, x, y, c) == a[c],
        checker_at(cell, a, b, x + cell, y, c) == checker_at(cell, b, a, x, y, c),
        checker_at(cell, a, b, x, y + cell, c) == checker_at(cell, b, a, x, y, c),
{
    let n = cell as int;
    vstd::arithmetic::div_mod::lemma_div_plus_one(x, n);
    vstd::arithmetic::div_mod::lemma_div_plus_one(y, n);
    if x < n && y < n {
        vstd::arithmetic::div_mod::lemma_basic_div(x, n);
        vstd::arithmetic::div_mod::lemma_basic_div(y, n);
    }
    vstd::arithmetic::div_mod::lemma_div_pos_is_pos(x, n);
    vstd::arithmetic::div_mod::lemma_div_pos_is_pos(y, n);
}

/// Builds a checkerboard RGBA8 image.
pub fn checkerboard(width: u32, height: u32, cell: u32, a: [u8; 4], b: [u8; 4]) -> (out: Vec<u8>)
    ensures
        out@ == Seq::new(
            (width * height * 4) as nat,
            |i: int|
                checker_at(cell, a, b, i / 4 % (width as int), i / 4 / (width as int), i % 4),
        ),
{
    let ghost goal = Seq::new(
        (width * height * 4) as nat,
        |i: int| checker_at(cell, a, b, i / 4 % (width as int), i / 4 / (width as int), i % 4),
    );
    let size: u32 = if cell > 1 { cell } else { 1 };
    let mut out: Vec<u8> = Vec::new();
    let mut y: u32 = 0;
    proof {
        num::lemma_product_is_nat(width as int, height as int);
    }
    while y < height
        invariant
            size == side_of(cell),
            goal == Seq::new(
                (width * height * 4) as nat,
                |i: int|
                    checker_at(cell, a, b, i / 4 % (width as int), i / 4 / (width as int), i % 4),
            ),
            goal.len() == width * height * 4,
            y <= height,
            out@.len() == y * width * 4,
            forall|i: int| 0 <= i < out@.len() ==> #[trigger] out@[i] == goal[i],
        decreases height - y,
    {
        let mut x: u32 = 0;
        while x < width
            invariant
                size == side_of(cell),
                goal == Seq::new(
                    (width * height * 4) as nat,
                    |i: int|
                        checker_at(
                            cell,
                            a,
                            b,
                            i / 4 % (width as int),
                            i / 4 / (width as int),
                            i % 4,
                        ),
                ),
                goal.len() == width * height * 4,
                y < height,
                x <= width,
                out@.len() == (y * width + x) * 4,
                forall|i: int| 0 <= i < out@.len() ==> #[trigger] out@[i] == goal[i],
            decreases width - x,
        {
            let even = ((x / size) as u64 + (y / size) as u64) % 2 == 0;
            let color: [u8; 4] = if even { a } else { b };
            proof {
                lemma_place(width as int, height as int, x as int, y as int, 0);
                lemma_place(width as int, height as int, x as int, y as int, 1);
                lemma_place(width as int, height as int, x as int, y as int, 2);
                lemma_place(width as int, height as int, x as int, y as int, 3);
            }
            out.push(color[0]);
            out.push(color[1]);
            out.push(color[2]);
            out.push(color[3]);
            assert((y * width + x) * 4 + 4 == (y * width + (x + 1)) * 4) by (nonlinear_arith);
            x += 1;
        }
        assert((y * width + width) * 4 == (y + 1) * width * 4) by (nonlinear_arith);
        y += 1;
    }
    assert(height * width * 4 == width * height * 4) by (nonlinear_arith);
    assert(out@ =~= goal);
    out
}

/// The bytes of a chain are those of its levels: chains one behind the other add up.
pub proof fn law_the_bytes_of_a_chain_are_its_levels(a: Seq<MipLevel>, b: Seq<MipLevel>)
    ensures
        total_bytes(a + b) == total_bytes(a) + total_bytes(b),
        b.len() == 1 ==> total_bytes(b) == b[0].pixels@.len(),
    decreases b.len(),
{
    reveal_with_fuel(total_bytes, 2);
    if b.len() == 0 {
        assert(a + b =~= a);
    } else {
        law_the_bytes_of_a_chain_are_its_levels(a, b.drop_last());
        assert((a + b).drop_last() =~= a + b.drop_last());
    }
}

} // verus!
