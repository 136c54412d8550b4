//! Which texels a sample reads.
//!
//! Wrapping and texel selection use integer arithmetic so that a tap at the edge
//! of a texture lands on the same texel in every run and every tier.
use vstd::prelude::*;

verus! {

pub const FILTER_NEAREST: u32 = 0;

pub const FILTER_LINEAR: u32 = 1;

pub const FILTER_NEAREST_MIP_LINEAR: u32 = 2;

pub const FILTER_LINEAR_MIP_LINEAR: u32 = 3;

pub const WRAP_REPEAT: u32 = 0;

pub const WRAP_CLAMP: u32 = 1;

pub const WRAP_MIRROR: u32 = 2;

/// One mip level of one array slice, RGBA8, tightly packed rows.
#[derive(Clone, Copy)]
pub struct TextureLevel<'a> {
    pub width: u32,
    pub height: u32,
    pub data: &'a [u8],
}

/// The four bytes of a texel.
#[derive(Clone, Copy, Debug, PartialEq, Eq, Structural)]
pub struct Texel {
    pub r: u8,
    pub g: u8,
    pub b: u8,
    pub a: u8,
}

/// The texel at a place, opaque black where the data ends before it.
pub open spec fn texel_at(width: int, data: Seq<u8>, x: int, y: int) -> Texel {
    let at = (y * width + x) * 4;
    if at + 3 < data.len() {
        Texel { r: data[at], g: data[at + 1], b: data[at + 2], a: data[at + 3] }
    } else {
        Texel { r: 0, g: 0, b: 0, a: 255 }
    }
}

impl<'a> TextureLevel<'a> {
    /// The texel at a place: each channel is its byte over 255.
    pub fn texel(&self, x: u32, y: u32) -> (r: Texel)
        ensures
            r == texel_at(self.width as int, self.data@, x as int, y as int),
    {
        assert(0 <= y * self.width <= 0xffff_ffff * 0xffff_ffff) by (nonlinear_arith)
            requires
                0 <= y <= 0xffff_ffff,
                0 <= self.width <= 0xffff_ffff;
        let at: u128 = (y as u128 * self.width as u128 + x as u128) * 4;
        assert(self.data.len() == self.data@.len());
        if at + 3 >= self.data.len() as u128 {
            return Texel { r: 0, g: 0, b: 0, a: 255 };
        }
        let at: usize = at as usize;
        Texel { r: self.data[at], g: self.data[at + 1], b: self.data[at + 2], a: self.data[at + 3] }
    }
}

/// Where a texel index lies in a row of `size` texels that goes on beyond its
/// ends.
pub open spec fn wrapped(i: int, size: int, mode: u32) -> int {
    if size <= 0 {
        0
    } else if mode == WRAP_CLAMP {
        if i < 0 {
            0
        } else if i >= size {
            size - 1
        } else {
            i
        }
    } else if mode == WRAP_MIRROR {
        let m = i % (2 * size);
        if m >= size {
            2 * size - 1 - m
        } else {
            m
        }
    } else {
        i % size
    }
}

/// The remainder that is never negative.
fn remainder(i: i64, n: i64) -> (r: i64)
    requires
        n > 0,
    ensures
        r == i as int % n as int,
        0 <= r < n,
{
    if i >= 0 {
        i % n
    } else {
        let k: i64 = -(i + 1);
        let m: i64 = k % n;
        proof {
            vstd::arithmetic::div_mod::lemma_fundamental_div_mod(k as int, n as int);
            let q = k as int / n as int;
            assert(i == (-q - 1) * n + (n - 1 - m)) by (nonlinear_arith)
                requires
                    k == n * q + m,
                    i == -k - 1;
            vstd::arithmetic::div_mod::lemma_fundamental_div_mod_converse(
                i as int,
                n as int,
                -q - 1,
                n - 1 - m,
            );
        }
        n - 1 - m
    }
}

/// Maps an out-of-range texel index back into `[0, size)` for a wrap mode.
/// Bilinear taps need this per neighbour, not once per coordinate.
pub fn wrap_texel(i: i64, size: i64, mode: u32) -> (r: i64)
    requires
        2 * size <= i64::MAX,
    ensures
        r == wrapped(i as int, size as int, mode),
        size > 0 ==> 0 <= r < size,
{
    if size <= 0 {
        return 0;
    }
    if mode == WRAP_CLAMP {
        if i < 0 {
            0
        } else if i >= size {
            size - 1
        } else {
            i
        }
    } else if mode == WRAP_MIRROR {
        let period: i64 = 2 * size;
        let m: i64 = remainder(i, period);
        if m >= size {
            period - 1 - m
        } else {
            m
        }
    } else {
        remainder(i, size)
    }
}

/// Repeating is periodic: one texture further on, the texels are the same.
pub proof fn law_repeat_is_periodic(i: int, size: int)
    requires
        0 < size,
    ensures
        wrapped(i + size, size, WRAP_REPEAT) == wrapped(i, size, WRAP_REPEAT),
        0 <= i < size ==> wrapped(i, size, WRAP_REPEAT) == i,
{
    vstd::arithmetic::div_mod::lemma_mod_add_multiples_vanish(i, size);
    if 0 <= i < size {
        vstd::arithmetic::div_mod::lemma_small_mod(i as nat, size as nat);
    }
}

/// Mirroring folds back at both ends: a texel past the edge is as far inside it.
pub proof fn law_mirror_folds_back(i: int, size: int)
    requires
        0 <= i < size,
    ensures
        wrapped(i, size, WRAP_MIRROR) == i,
        wrapped(-1 - i, size, WRAP_MIRROR) == i,
        wrapped(2 * size - 1 - i, size, WRAP_MIRROR) == i,
{
    let p = 2 * size;
    vstd::arithmetic::div_mod::lemma_small_mod(i as nat, p as nat);
    vstd::arithmetic::div_mod::lemma_small_mod((p - 1 - i) as nat, p as nat);
    vstd::arithmetic::div_mod::lemma_mod_add_multiples_vanish(-1 - i, p);
}

/// Clamping stays at the edge it passed.
pub proof fn law_clamp_stays_at_the_edge(i: int, size: int)
    requires
        0 < size,
    ensures
        i < 0 ==> wrapped(i, size, WRAP_CLAMP) == 0,
        i >= size ==> wrapped(i, size, WRAP_CLAMP) == size - 1,
        0 <= i < size ==> wrapped(i, size, WRAP_CLAMP) == i,
{
}

/// How a texture is read.
#[derive(Clone, Copy)]
pub struct Sampler {
    pub filter: u32,
    pub wrap_u: u32,
    pub wrap_v: u32,
}

/// The four texels around a sample, and its two levels.
#[derive(Clone, Copy, Debug, PartialEq, Eq, Structural)]
pub struct Taps {
    pub c00: Texel,
    pub c10: Texel,
    pub c01: Texel,
    pub c11: Texel,
}

pub open spec fn tap(level: TextureLevel, s: Sampler, x: int, y: int) -> Texel {
    texel_at(
        level.width as int,
        level.data@,
        wrapped(x, level.width as int, s.wrap_u),
        wrapped(y, level.height as int, s.wrap_v),
    )
}

fn read_tap(level: &TextureLevel, s: &Sampler, x: i64, y: i64) -> (r: Texel)
    ensures
        r == tap(*level, *s, x as int, y as int),
{
    let u: i64 = wrap_texel(x, level.width as i64, s.wrap_u);
    let v: i64 = wrap_texel(y, level.height as i64, s.wrap_v);
    level.texel(u as u32, v as u32)
}

/// The four texels whose blend a bilinear sample is, from the integer part of its
/// place.
pub fn bilinear_taps(level: &TextureLevel, s: &Sampler, x0: i64, y0: i64) -> (r: Taps)
    requires
        x0 < i64::MAX,
        y0 < i64::MAX,
    ensures
        r.c00 == tap(*level, *s, x0 as int, y0 as int),
        r.c10 == tap(*level, *s, x0 + 1, y0 as int),
        r.c01 == tap(*level, *s, x0 as int, y0 + 1),
        r.c11 == tap(*level, *s, x0 + 1, y0 + 1),
{
    Taps {
        c00: read_tap(level, s, x0, y0),
        c10: read_tap(level, s, x0 + 1, y0),
        c01: read_tap(level, s, x0, y0 + 1),
        c11: read_tap(level, s, x0 + 1, y0 + 1),
    }
}

/// Brings a place into a level that has texels.
pub open spec fn clamped(i: int, size: int) -> int {
    wrapped(i, size, WRAP_CLAMP)
}

/// The one texel a nearest sample reads, from the integer part of its place.
pub fn nearest_texel(level: &TextureLevel, x: i64, y: i64) -> (r: Texel)
    requires
        level.width > 0,
        level.height > 0,
    ensures
        r == texel_at(
            level.width as int,
            level.data@,
            clamped(x as int, level.width as int),
            clamped(y as int, level.height as int),
        ),
{
    let u: i64 = wrap_texel(x, level.width as i64, WRAP_CLAMP);
    let v: i64 = wrap_texel(y, level.height as i64, WRAP_CLAMP);
    level.texel(u as u32, v as u32)
}

/// What a sample blends.
#[derive(Clone, Copy, Debug, PartialEq, Eq, Structural)]
pub enum Pick {
    /// Nothing: a texture without levels is transparent black.
    Nothing,
    /// One texel of a level.
    Nearest(usize),
    /// Four texels of a level.
    Bilinear(usize),
    /// Four texels of each of two levels that follow each other.
    Trilinear(usize),
}

/// Which levels a sample reads, from the whole part of its level of detail and
/// the highest level it may read.
pub open spec fn picked(filter: u32, levels: int, lod: int, highest: int) -> Pick {
    let l0 = if lod < 0 {
        0
    } else if lod > highest {
        highest
    } else {
        lod
    };
    if levels == 0 {
        Pick::Nothing
    } else if filter == FILTER_NEAREST {
        // No mip chain: level 0 only.
        Pick::Nearest(0)
    } else if filter == FILTER_LINEAR {
        Pick::Bilinear(0)
    } else if filter == FILTER_NEAREST_MIP_LINEAR {
        Pick::Nearest(l0 as usize)
    } else if l0 == highest {
        Pick::Bilinear(l0 as usize)
    } else {
        Pick::Trilinear(l0 as usize)
    }
}

/// Which levels a sample reads.
pub fn pick_levels(filter: u32, levels: usize, lod: i64, highest: usize) -> (r: Pick)
    requires
        levels > 0 ==> highest < levels,
        highest <= i64::MAX,
    ensures
        r == picked(filter, levels as int, lod as int, highest as int),
        r matches Pick::Nearest(l) ==> l < levels,
        r matches Pick::Bilinear(l) ==> l < levels,
        r matches Pick::Trilinear(l) ==> l + 1 < levels,
{
    if levels == 0 {
        return Pick::Nothing;
    }
    if filter == FILTER_NEAREST {
        return Pick::Nearest(0);
    }
    if filter == FILTER_LINEAR {
        return Pick::Bilinear(0);
    }
    let l0: usize = if lod < 0 {
        0
    } else if lod > highest as i64 {
        highest
    } else {
        lod as usize
    };
    if filter == FILTER_NEAREST_MIP_LINEAR {
        Pick::Nearest(l0)
    } else if l0 == highest {
        Pick::Bilinear(l0)
    } else {
        Pick::Trilinear(l0)
    }
}

/// A texel is four bytes in a row: those of its own place, rows one behind the other
/// from the top. A place that the data does not reach is opaque black.
pub proof fn law_a_texel_is_its_own_four_bytes(width: int, height: int, data: Seq<u8>, x: int, y: int)
    requires
        0 <= x < width,
        0 <= y < height,
    ensures
        4 * (width * height) <= data.len() ==> {
            let t = texel_at(width, data, x, y);
            &&& seq![t.r, t.g, t.b, t.a] == data.subrange(
                4 * (width * y + x),
                4 * (width * y + x) + 4,
            )
        },
        data.len() < 4 * (width * y + x) + 4 ==> texel_at(width, data, x, y) == (Texel {
            r: 0,
            g: 0,
            b: 0,
            a: 255,
        }),
{
    assert(y * width == width * y) by (nonlinear_arith);
    let at = 4 * (width * y + x);
    if 4 * (width * height) <= data.len() {
        assert(0 <= width * y && width * y + width <= width * height) by (nonlinear_arith)
            requires
                0 <= y < height,
                0 < width;
        let t = texel_at(width, data, x, y);
        assert(seq![t.r, t.g, t.b, t.a] =~= data.subrange(at, at + 4));
    }
}

/// Clamping keeps a place inside an image where it is, and takes any other to the
/// nearest edge.
pub proof fn law_the_nearest_texel_is_the_nearest_inside(i: int, size: int, other: int)
    requires
        0 < size,
        0 <= other < size,
    ensures
        0 <= clamped(i, size) < size,
        0 <= i < size ==> clamped(i, size) == i,
        i < other ==> i <= clamped(i, size) <= other,
        i > other ==> other <= clamped(i, size) <= i,
{
}

/// Each axis of a tap goes by its own wrap mode: a tap inside is the texel there, a
/// whole image further along an axis that repeats is the same tap, beyond an axis that
/// clamps is the texel at the edge, and beyond one that mirrors is its image.
pub proof fn law_each_axis_of_a_tap_wraps_by_its_own_mode(
    level: TextureLevel,
    s: Sampler,
    x: int,
    y: int,
)
    requires
        0 <= x < level.width,
        0 <= y < level.height,
    ensures
        ({
            let (w, h) = (level.width as int, level.height as int);
            let here = texel_at(w, level.data@, x, y);
            &&& tap(level, s, x, y) == here
            &&& s.wrap_u == WRAP_REPEAT ==> tap(level, s, x + w, y) == here && tap(
                level,
                s,
                x - w,
                y,
            ) == here
            &&& s.wrap_v == WRAP_REPEAT ==> tap(level, s, x, y + h) == here && tap(
                level,
                s,
                x,
                y - h,
            ) == here
            &&& s.wrap_u == WRAP_MIRROR ==> tap(level, s, -1 - x, y) == here && tap(
                level,
                s,
                2 * w - 1 - x,
                y,
            ) == here
            &&& s.wrap_v == WRAP_MIRROR ==> tap(level, s, x, -1 - y) == here && tap(
                level,
                s,
                x,
                2 * h - 1 - y,
            ) == here
            &&& s.wrap_u == WRAP_CLAMP ==> tap(level, s, -1 - x, y) == texel_at(
                w,
                level.data@,
                0,
                y,
            ) && tap(level, s, w + x, y) == texel_at(w, level.data@, w - 1, y)
            &&& s.wrap_v == WRAP_CLAMP ==> tap(level, s, x, -1 - y) == texel_at(
                w,
                level.data@,
                x,
                0,
            ) && tap(level, s, x, h + y) == texel_at(w, level.data@, x, h - 1)
        }),
{
    let (w, h) = (level.width as int, level.height as int);
    law_mirror_folds_back(x, w);
    law_mirror_folds_back(y, h);
    law_repeat_is_periodic(x, w);
    law_repeat_is_periodic(x - w, w);
    law_repeat_is_periodic(y, h);
    law_repeat_is_periodic(y - h, h);
    if s.wrap_u != WRAP_CLAMP && s.wrap_u != WRAP_MIRROR {
        vstd::arithmetic::div_mod::lemma_small_mod(x as nat, w as nat);
    }
    if s.wrap_v != WRAP_CLAMP && s.wrap_v != WRAP_MIRROR {
        vstd::arithmetic::div_mod::lemma_small_mod(y as nat, h as nat);
    }
}

/// A sample reads the level its distance asks for, and never one that is not there: no
/// filter without mips reads any but the first, a filter between levels reads the level
/// and the next, and only the last by itself.
pub proof fn law_a_sample_reads_the_level_it_asks_for(
    filter: u32,
    levels: int,
    lod: int,
    highest: int,
)
    requires
        0 <= highest < levels <= usize::MAX,
    ensures
        filter == FILTER_NEAREST ==> picked(filter, levels, lod, highest) == Pick::Nearest(0),
        filter == FILTER_LINEAR ==> picked(filter, levels, lod, highest) == Pick::Bilinear(0),
        filter == FILTER_NEAREST_MIP_LINEAR && 0 <= lod <= highest ==> picked(
            filter,
            levels,
            lod,
            highest,
        ) == Pick::Nearest(lod as usize),
        filter == FILTER_LINEAR_MIP_LINEAR && 0 <= lod < highest ==> picked(
            filter,
            levels,
            lod,
            highest,
        ) == Pick::Trilinear(lod as usize),
        filter == FILTER_LINEAR_MIP_LINEAR ==> picked(filter, levels, highest, highest)
            == Pick::Bilinear(highest as usize),
        lod > highest ==> picked(filter, levels, lod, highest) == picked(
            filter,
            levels,
            highest,
            highest,
        ),
        lod < 0 ==> picked(filter, levels, lod, highest) == picked(filter, levels, 0, highest),
        picked(filter, 0, lod, highest) == Pick::Nothing,
{
}

} // verus!
