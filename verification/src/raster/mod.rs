//! The reference rasteriser: tiled, fixed-point and reproducible.
//!
//! * **8-bit subpixel precision and the top-left fill rule** ([`fixed`]).
//! * **Tiles are independent.** A tile's pixels belong to that tile alone and its
//!   triangles come in draw order, so the frame does not depend on who renders
//!   which tile, or when ([`tile`]).
//! * **No allocation inside a frame.** All storage is reserved in
//!   [`tile::Rasterizer::prepare`]; anything that still has to grow is counted.
pub mod bin;
pub mod clip;
pub mod determinism;
pub mod fixed;
pub mod framegen;
pub mod job;
pub mod laws;
pub mod shade;
pub mod simd;
pub mod single;
pub mod target;
pub mod texture;
pub mod tile;

use crate::bytes;
use crate::num;
use vstd::prelude::*;

verus! {

/// Attribute layout of a vertex.
pub const ATTR_COUNT: usize = 12;

pub const ATTR_POSITION: usize = 0;

pub const ATTR_NORMAL: usize = 3;

pub const ATTR_UV: usize = 6;

pub const ATTR_COLOR: usize = 8;

pub const MAX_TEXTURE_SLOTS: usize = 8;

pub const CULL_NONE: u32 = 0;

pub const CULL_BACK: u32 = 1;

pub const CULL_FRONT: u32 = 2;

pub const COMPARE_LESS: u32 = 0;

pub const COMPARE_GREATER: u32 = 1;

pub const BLEND_OPAQUE: u32 = 0;

pub const BLEND_ALPHA: u32 = 1;

pub const BLEND_ADDITIVE: u32 = 2;

pub const BLEND_MULTIPLY: u32 = 3;

/// One axis of a viewport of `vp` frame pixels on a target of `target` pixels,
/// before the clamp: scaled by `target / frame`, rounded half up.
pub open spec fn scaled_axis(vp: u32, frame: u32, target: u32) -> int {
    let frame = num::imax(frame as int, 1);
    (vp * target + frame / 2) / frame
}

/// One axis of [`rendered_viewport`].
pub open spec fn rendered_axis(vp: u32, frame: u32, target: u32) -> int {
    if vp == 0 {
        target as int
    } else {
        num::imin(num::imax(scaled_axis(vp, frame, target), 1), target as int)
    }
}

/// Resolves a pass's viewport to the pixel area of a render target.
///
/// The viewport is in *frame* pixels - the units the host sized its own window
/// in - and is scaled to `target`, so that rendering at a fraction of the frame
/// confines the same fraction.
///
/// * `(0, 0)` means the whole target.
/// * A viewport larger than the frame is clamped to the target rather than
///   refused.
/// * On a target that has pixels, the result has pixels in either axis.
pub fn rendered_viewport(viewport: (u32, u32), frame: (u32, u32), target: (u32, u32)) -> (r: (
    u32,
    u32,
))
    requires
        viewport.0 == 0 || target.0 > 0,
        viewport.1 == 0 || target.1 > 0,
    ensures
        r.0 == rendered_axis(viewport.0, frame.0, target.0),
        r.1 == rendered_axis(viewport.1, frame.1, target.1),
        target.0 > 0 ==> 1 <= r.0 <= target.0,
        target.1 > 0 ==> 1 <= r.1 <= target.1,
{
    (axis(viewport.0, frame.0, target.0), axis(viewport.1, frame.1, target.1))
}

fn axis(vp: u32, frame: u32, target: u32) -> (r: u32)
    requires
        vp == 0 || target > 0,
    ensures
        r == rendered_axis(vp, frame, target),
{
    if vp == 0 {
        return target;
    }
    let frame: u64 = if frame == 0 {
        1
    } else {
        frame as u64
    };
    assert(vp * target <= 0xffff_ffff * 0xffff_ffff) by (nonlinear_arith)
        requires
            0 <= vp <= 0xffff_ffff,
            0 <= target <= 0xffff_ffff;
    let scaled: u64 = ((vp as u64) * (target as u64) + frame / 2) / frame;
    if scaled < 1 {
        1
    } else if scaled > target as u64 {
        target
    } else {
        scaled as u32
    }
}

/// The whole frame, asked for explicitly, is the whole target.
pub proof fn law_the_whole_frame_is_the_whole_target(frame: u32, target: u32)
    requires
        frame > 0,
        target > 0,
    ensures
        rendered_axis(frame, frame, target) == target,
{
    let half = frame as int / 2;
    assert((frame * target + half) / (frame as int) == target) by (nonlinear_arith)
        requires
            frame > 0,
            0 <= half < frame,
            half == frame as int / 2;
}

/// A viewport inside the frame is rounded to the nearest target pixel: the
/// result is off the exact fraction by at most half a pixel.
pub proof fn law_the_viewport_rounds_to_the_nearest_pixel(vp: u32, frame: u32, target: u32)
    requires
        frame > 0,
    ensures
        -(frame as int) <= 2 * (scaled_axis(vp, frame, target) * frame - vp * target) <= frame,
{
    let exact = vp * target;
    let half = frame as int / 2;
    let r = (exact + half) / (frame as int);
    let rest = (exact + half) % (frame as int);
    assert(r * frame + rest == exact + half && 0 <= rest < frame) by (nonlinear_arith)
        requires
            frame > 0,
            r == (exact + half) / (frame as int),
            rest == (exact + half) % (frame as int);
}

/// What a host uploads: a vertex, its numbers as bit patterns.
#[derive(Clone, Copy, Debug)]
pub struct Vertex {
    pub position: [u32; 3],
    pub normal: [u32; 3],
    pub uv: [u32; 2],
    pub color: [u32; 4],
}

impl Vertex {
    pub fn new(position: [u32; 3], normal: [u32; 3], uv: [u32; 2], color: [u32; 4]) -> (v: Vertex)
        ensures
            v.position == position,
            v.normal == normal,
            v.uv == uv,
            v.color == color,
    {
        Vertex { position, normal, uv, color }
    }

    /// A vertex that faces up and has no texture coordinate.
    pub fn plain(position: [u32; 3], color: [u32; 4]) -> (v: Vertex)
        ensures
            v.position == position,
            v.normal@ == seq![0u32, single::ONE, 0u32],
            v.uv@ == seq![0u32, 0u32],
            v.color == color,
    {
        let v = Vertex { position, normal: [0, single::ONE, 0], uv: [0, 0], color };
        assert(v.normal@ =~= seq![0u32, single::ONE, 0u32]);
        assert(v.uv@ =~= seq![0u32, 0u32]);
        v
    }

    /// The attributes in their fixed layout: see [`ATTR_POSITION`] and the others.
    pub fn attrs(&self) -> (r: [u32; ATTR_COUNT])
        ensures
            r@.subrange(ATTR_POSITION as int, ATTR_NORMAL as int) == self.position@,
            r@.subrange(ATTR_NORMAL as int, ATTR_UV as int) == self.normal@,
            r@.subrange(ATTR_UV as int, ATTR_COLOR as int) == self.uv@,
            r@.subrange(ATTR_COLOR as int, ATTR_COUNT as int) == self.color@,
    {
        let r = [
            self.position[0],
            self.position[1],
            self.position[2],
            self.normal[0],
            self.normal[1],
            self.normal[2],
            self.uv[0],
            self.uv[1],
            self.color[0],
            self.color[1],
            self.color[2],
            self.color[3],
        ];
        assert(r@.subrange(0, 3) =~= self.position@);
        assert(r@.subrange(3, 6) =~= self.normal@);
        assert(r@.subrange(6, 8) =~= self.uv@);
        assert(r@.subrange(8, 12) =~= self.color@);
        r
    }
}

#[derive(Clone, Copy, Debug, PartialEq, Eq, Structural)]
pub struct PipelineState {
    pub blend: u32,
    pub cull: u32,
    pub depth_compare: u32,
    /// `false` means the depth test is not performed at all.
    pub depth_test: bool,
    pub depth_write: bool,
    /// Flip the normal on back faces (two-sided lighting).
    pub two_sided: bool,
}

impl Default for PipelineState {
    fn default() -> (s: Self)
        ensures
            s.blend == BLEND_OPAQUE,
            s.cull == CULL_BACK,
            s.depth_compare == COMPARE_GREATER,
            s.depth_test,
            s.depth_write,
            !s.two_sided,
    {
        PipelineState {
            blend: BLEND_OPAQUE,
            cull: CULL_BACK,
            depth_compare: COMPARE_GREATER,
            depth_test: true,
            depth_write: true,
            two_sided: false,
        }
    }
}

/// What a draw does per fragment.
#[derive(Clone, Copy, Debug, PartialEq, Eq, Structural)]
pub enum ShaderRef {
    /// Depth only: the shadow pass, or a depth prepass. No colour, no shading.
    DepthOnly,
    /// A surface shader, by its place in the list the host shades with.
    Surface(u32),
}

impl ShaderRef {
    pub fn is_depth_only(&self) -> (r: bool)
        ensures
            r == (*self is DepthOnly),
    {
        matches!(self, ShaderRef::DepthOnly)
    }
}

/// One step of the FNV-1a hash.
pub open spec fn fnv_step(hash: u64, byte: u8) -> u64 {
    (((hash ^ (byte as u64)) as int * 0x0000_0100_0000_01b3) % 0x1_0000_0000_0000_0000) as u64
}

/// FNV-1a over `data`, from its offset basis.
pub open spec fn fnv1a(data: Seq<u8>) -> u64
    decreases data.len(),
{
    if data.len() == 0 {
        0xcbf2_9ce4_8422_2325u64
    } else {
        fnv_step(fnv1a(data.drop_last()), data.last())
    }
}

/// FNV-1a over a byte slice: the frame checksum.
pub fn checksum_bytes(data: &[u8]) -> (hash: u64)
    ensures
        hash == fnv1a(data@),
{
    let mut hash: u64 = 0xcbf2_9ce4_8422_2325u64;
    let mut i: usize = 0;
    while i < data.len()
        invariant
            i <= data@.len(),
            hash == fnv1a(data@.take(i as int)),
        decreases data@.len() - i,
    {
        assert(data@.take(i + 1).drop_last() =~= data@.take(i as int));
        hash = fold(hash, data[i]);
        i += 1;
    }
    assert(data@.take(i as int) =~= data@);
    hash
}

fn fold(hash: u64, byte: u8) -> (r: u64)
    ensures
        r == fnv_step(hash, byte),
{
    (hash ^ (byte as u64)).wrapping_mul(0x0000_0100_0000_01b3)
}

/// The bytes of some bit patterns, each from its lowest.
pub open spec fn pattern_bytes(data: Seq<u32>) -> Seq<u8>
    decreases data.len(),
{
    if data.len() == 0 {
        seq![]
    } else {
        pattern_bytes(data.drop_last()) + bytes::le32(data.last())
    }
}

/// FNV-1a over the bit patterns of some numbers.
pub fn checksum_f32(data: &[u32]) -> (hash: u64)
    ensures
        hash == fnv1a(pattern_bytes(data@)),
{
    let mut hash: u64 = 0xcbf2_9ce4_8422_2325u64;
    let mut i: usize = 0;
    while i < data.len()
        invariant
            i <= data@.len(),
            hash == fnv1a(pattern_bytes(data@.take(i as int))),
        decreases data@.len() - i,
    {
        let v: u32 = data[i];
        let ghost head = pattern_bytes(data@.take(i as int));
        let ghost four = bytes::le32(v);
        assert(data@.take(i + 1).drop_last() =~= data@.take(i as int));
        proof {
            lemma_four_steps(head, four);
        }
        hash = fold(hash, (v % 0x100) as u8);
        hash = fold(hash, (v / 0x100 % 0x100) as u8);
        hash = fold(hash, (v / 0x1_0000 % 0x100) as u8);
        hash = fold(hash, (v / 0x100_0000) as u8);
        i += 1;
    }
    assert(data@.take(i as int) =~= data@);
    hash
}

proof fn lemma_four_steps(head: Seq<u8>, four: Seq<u8>)
    requires
        four.len() == 4,
    ensures
        fnv1a(head + four) == fnv_step(
            fnv_step(fnv_step(fnv_step(fnv1a(head), four[0]), four[1]), four[2]),
            four[3],
        ),
{
    let a = head.push(four[0]);
    let b = a.push(four[1]);
    let c = b.push(four[2]);
    let d = c.push(four[3]);
    assert(head + four =~= d);
    assert(d.drop_last() =~= c && c.drop_last() =~= b && b.drop_last() =~= a && a.drop_last()
        =~= head);
    reveal_with_fuel(fnv1a, 5);
}

/// The step of the hash loses nothing: the multiplier has an inverse.
proof fn lemma_step_is_one_to_one(g: u64, a: u8, h: u64, b: u8)
    requires
        fnv_step(g, a) == fnv_step(h, b),
    ensures
        g ^ (a as u64) == h ^ (b as u64),
{
    lemma_product_is_undone((g ^ (a as u64)) as int);
    lemma_product_is_undone((h ^ (b as u64)) as int);
}

proof fn lemma_product_is_undone(x: int)
    requires
        0 <= x < 0x1_0000_0000_0000_0000,
    ensures
        ((x * 0x0000_0100_0000_01b3) % 0x1_0000_0000_0000_0000 * 0xce965057aff6957b) % 0x1_0000_0000_0000_0000 == x,
{
    let m = 0x1_0000_0000_0000_0000int;
    let y = x * 0x0000_0100_0000_01b3;
    vstd::arithmetic::div_mod::lemma_mul_mod_noop_left(y, 0xce965057aff6957b, m);
    assert(y * 0xce965057aff6957b == x + m * (x * 0xce9650590f)) by (nonlinear_arith)
        requires
            y == x * 0x0000_0100_0000_01b3,
            m == 0x1_0000_0000_0000_0000,
    ;
    vstd::arithmetic::div_mod::lemma_mod_multiples_vanish(x * 0xce9650590f, x, m);
    vstd::arithmetic::div_mod::lemma_small_mod(x as nat, m as nat);
}

/// A frame with one changed byte has another checksum.
pub proof fn law_the_checksum_sees_a_changed_byte(a: Seq<u8>, b: Seq<u8>, i: int)
    requires
        a.len() == b.len(),
        0 <= i < a.len(),
        a[i] != b[i],
        forall|k: int| 0 <= k < a.len() && k != i ==> a[k] == b[k],
    ensures
        fnv1a(a) != fnv1a(b),
    decreases a.len(),
{
    let (g, h) = (fnv1a(a.drop_last()), fnv1a(b.drop_last()));
    let (x, y) = (a.last(), b.last());
    if i == a.len() - 1 {
        assert(a.drop_last() =~= b.drop_last());
        if fnv1a(a) == fnv1a(b) {
            lemma_step_is_one_to_one(g, x, h, y);
            assert(x == y) by (bit_vector)
                requires
                    g ^ (x as u64) == h ^ (y as u64),
                    g == h;
        }
    } else {
        law_the_checksum_sees_a_changed_byte(a.drop_last(), b.drop_last(), i);
        if fnv1a(a) == fnv1a(b) {
            lemma_step_is_one_to_one(g, x, h, y);
            assert(g == h) by (bit_vector)
                requires
                    g ^ (x as u64) == h ^ (y as u64),
                    x == y;
        }
    }
}

/// What is rendered of a side: all of it where nothing else is asked for, and otherwise
/// at least a pixel and no more than there is, the nearest to the share that is asked
/// for.
pub proof fn law_a_viewport_stays_in_its_target(vp: u32, frame: u32, target: u32)
    requires
        frame > 0,
        target > 0,
    ensures
        rendered_axis(0, frame, target) == target,
        1 <= rendered_axis(vp, frame, target) <= target,
        vp > 0 && frame <= 2 * (vp * target) && 2 * (vp * target) < 2 * (target * frame) + frame
            ==> -(frame as int) <= 2 * (rendered_axis(vp, frame, target) * frame - vp * target)
            <= frame,
{
    law_the_viewport_rounds_to_the_nearest_pixel(vp, frame, target);
    let (s, f, t, v) = (
        scaled_axis(vp, frame, target),
        frame as int,
        target as int,
        vp * target,
    );
    if vp > 0 && f <= 2 * v && 2 * v < 2 * (t * f) + f {
        assert(s >= 1) by (nonlinear_arith)
            requires
                s == (v + f / 2) / f,
                f <= 2 * v,
                f > 0;
        assert(s <= t) by (nonlinear_arith)
            requires
                s == (v + f / 2) / f,
                2 * v < 2 * (t * f) + f,
                f > 0;
    }
}

} // verus!
