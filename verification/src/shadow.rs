//! Which shadow map a fragment reads, and which maps may be read again.
use crate::bytes;
use crate::hash;
use crate::raster::single;
use vstd::prelude::*;

verus! {

pub const MAX_CASCADES: usize = 4;

pub const FILTER_HARD: u32 = 0;

pub const FILTER_PCF3X3: u32 = 1;

pub const FILTER_PCF5X5: u32 = 2;

pub const FILTER_PCSS_LITE: u32 = 3;

/// How many cascades a configuration gets.
pub fn cascade_count(asked: u32) -> (r: u32)
    ensures
        r == if asked < 1 {
            1
        } else if asked > MAX_CASCADES {
            MAX_CASCADES as int
        } else {
            asked as int
        },
{
    if asked < 1 {
        1
    } else if asked > MAX_CASCADES as u32 {
        MAX_CASCADES as u32
    } else {
        asked
    }
}

/// The first cascade from `i` on that reaches a distance.
pub open spec fn reaching(splits: Seq<u32>, distance: u32, i: int) -> int
    decreases splits.len() - i,
{
    if i >= splits.len() {
        splits.len() as int
    } else if single::is_at_most(distance, splits[i]) {
        i
    } else {
        reaching(splits, distance, i + 1)
    }
}

/// The cascade that covers a distance: the first that reaches it, and the last
/// where none does.
pub open spec fn cascade_at(splits: Seq<u32>, distance: u32) -> Option<int> {
    let i = reaching(splits, distance, 0);
    if splits.len() == 0 {
        None
    } else if i < splits.len() {
        Some(i)
    } else {
        Some(splits.len() - 1)
    }
}

/// Which cascade covers a camera-space distance, if any. The distances at which
/// the cascades stop are given as bit patterns.
pub fn select_cascade(splits: &[u32], distance: u32) -> (r: Option<usize>)
    ensures
        match r {
            Some(i) => i < splits@.len() && cascade_at(splits@, distance) == Some(i as int),
            None => cascade_at(splits@, distance) is None,
        },
{
    if splits.len() == 0 {
        return None;
    }
    let mut i: usize = 0;
    while i < splits.len()
        invariant
            i <= splits@.len(),
            splits@.len() > 0,
            reaching(splits@, distance, 0) == reaching(splits@, distance, i as int),
        decreases splits@.len() - i,
    {
        if single::at_most(distance, splits[i]) {
            return Some(i);
        }
        i += 1;
    }
    Some(splits.len() - 1)
}

/// How far the taps of a filter reach around a texel.
pub fn filter_radius(filter: u32) -> (r: u32)
    ensures
        r == if filter == FILTER_HARD {
            0int
        } else if filter == FILTER_PCF5X5 || filter == FILTER_PCSS_LITE {
            2
        } else {
            1
        },
{
    if filter == FILTER_HARD {
        0
    } else if filter == FILTER_PCF5X5 || filter == FILTER_PCSS_LITE {
        2
    } else {
        1
    }
}

pub open spec fn inside(i: int, size: int) -> int {
    if i < 0 {
        0
    } else if i >= size {
        size - 1
    } else {
        i
    }
}

/// Where a tap reads its map, clamped to the map; `None` is past the end of the
/// depths, which reads as lit.
pub fn tap_index(x: i64, y: i64, width: u32, height: u32, depths: usize) -> (r: Option<usize>)
    requires
        width > 0,
        height > 0,
    ensures
        ({
            let at = inside(y as int, height as int) * width + inside(x as int, width as int);
            match r {
                Some(i) => i == at && at < depths,
                None => at >= depths,
            }
        }),
{
    let u: u64 = if x < 0 {
        0
    } else if x >= width as i64 {
        width as u64 - 1
    } else {
        x as u64
    };
    let v: u64 = if y < 0 {
        0
    } else if y >= height as i64 {
        height as u64 - 1
    } else {
        y as u64
    };
    assert(v * width + u <= 0xffff_ffff * 0xffff_ffff + 0xffff_ffff) by (nonlinear_arith)
        requires
            0 <= v <= 0xffff_ffff,
            0 <= width <= 0xffff_ffff,
            0 <= u <= 0xffff_ffff;
    assert(0 <= v * width) by (nonlinear_arith)
        requires
            0 <= v,
            0 <= width;
    let at: u64 = v * width as u64 + u;
    if at < depths as u64 {
        Some(at as usize)
    } else {
        None
    }
}

/// Does a lookup fall back to fully lit before any map is read? It does beyond the
/// maximum distance, where no cascade covers the fragment, and where the map is
/// missing or empty.
pub fn reads_as_lit(
    distance: u32,
    max_distance: u32,
    splits: &[u32],
    map_index: &[u32],
    maps: &[(u32, u32, usize)],
) -> (r: bool)
    requires
        splits@.len() == map_index@.len(),
    ensures
        r == is_lit(distance, max_distance, splits@, map_index@, maps@),
{
    if single::less(max_distance, distance) {
        return true;
    }
    match select_cascade(splits, distance) {
        None => true,
        Some(i) => {
            let m: u32 = map_index[i];
            if m as usize >= maps.len() {
                return true;
            }
            let (width, height, depths) = maps[m as usize];
            width == 0 || height == 0 || depths == 0
        },
    }
}

pub open spec fn is_lit(
    distance: u32,
    max_distance: u32,
    splits: Seq<u32>,
    map_index: Seq<u32>,
    maps: Seq<(u32, u32, usize)>,
) -> bool {
    single::is_less(max_distance, distance) || match cascade_at(splits, distance) {
        None => true,
        Some(i) => {
            let m = map_index[i] as int;
            m >= maps.len() || maps[m].0 == 0 || maps[m].1 == 0 || maps[m].2 == 0
        },
    }
}

/// What identifies a cached static cascade. The matrix is given as bit patterns.
pub struct CacheKeyInput {
    /// Hash of the light's own parameters (direction, position, colour, cone).
    pub light_hash: u64,
    pub cascade_index: u32,
    pub view_proj: [u32; 16],
    /// World revision: bumping it retires the entry at once.
    pub world_revision: u64,
    pub filter: u32,
    pub map_size: u32,
    pub reversed_z: bool,
    /// Identity of the geometry set that was rendered into the map.
    pub static_geometry_revision: u64,
}

/// The bytes of the first `n` numbers of a matrix.
pub open spec fn matrix_bytes(m: Seq<u32>, n: int) -> Seq<u8>
    decreases n,
{
    if n <= 0 {
        seq![]
    } else {
        matrix_bytes(m, n - 1) + bytes::le32(m[n - 1])
    }
}

pub open spec fn flag(b: bool) -> u64 {
    if b {
        1
    } else {
        0
    }
}

/// Everything that can change the bytes of a shadow map, and nothing else.
pub open spec fn key_bytes(input: CacheKeyInput) -> Seq<u8> {
    bytes::le64(input.light_hash) + bytes::le64(input.cascade_index as u64) + matrix_bytes(
        input.view_proj@,
        16,
    ) + bytes::le64(input.world_revision) + bytes::le64(input.static_geometry_revision)
        + bytes::le64(input.filter as u64) + bytes::le64(input.map_size as u64) + bytes::le64(
        flag(input.reversed_z),
    )
}

/// The seed of the keys: "RCLSHDOW".
pub const KEY_SEED: u64 = 0x5243_4c53_4844_4f57;

/// The cache key: a warmer cache must never change a pixel, so two inputs that
/// differ in anything a map depends on are hashed from different bytes.
pub fn cache_key(input: &CacheKeyInput) -> (key: u64)
    ensures
        key == hash::xxh64(KEY_SEED, key_bytes(*input)),
{
    let mut data: Vec<u8> = Vec::new();
    bytes::push_le64(&mut data, input.light_hash);
    bytes::push_le64(&mut data, input.cascade_index as u64);
    assert(data@ =~= bytes::le64(input.light_hash) + bytes::le64(input.cascade_index as u64));
    let ghost head = data@;
    let mut i: usize = 0;
    assert(data@ =~= head + matrix_bytes(input.view_proj@, 0));
    while i < 16
        invariant
            i <= 16,
            data@ == head + matrix_bytes(input.view_proj@, i as int),
        decreases 16 - i,
    {
        bytes::push_le32(&mut data, input.view_proj[i]);
        i += 1;
        assert(data@ =~= head + matrix_bytes(input.view_proj@, i as int));
    }
    bytes::push_le64(&mut data, input.world_revision);
    bytes::push_le64(&mut data, input.static_geometry_revision);
    bytes::push_le64(&mut data, input.filter as u64);
    bytes::push_le64(&mut data, input.map_size as u64);
    bytes::push_le64(
        &mut data,
        if input.reversed_z {
            1
        } else {
            0
        },
    );
    assert(data@ =~= key_bytes(*input));
    hash::xxh64_seeded(KEY_SEED, data.as_slice())
}

/// Equal wholes of equal fronts have equal parts.
proof fn lemma_split(a: Seq<u8>, b: Seq<u8>, c: Seq<u8>, d: Seq<u8>)
    requires
        a + b == c + d,
        a.len() == c.len(),
    ensures
        a == c,
        b == d,
{
    let (x, y) = (a + b, c + d);
    assert(a =~= x.take(a.len() as int));
    assert(c =~= y.take(a.len() as int));
    assert(b =~= x.skip(a.len() as int));
    assert(d =~= y.skip(a.len() as int));
}

proof fn lemma_same_number(a: u64, b: u64)
    requires
        bytes::le64(a) == bytes::le64(b),
    ensures
        a == b,
{
    let s = bytes::le64(a);
    assert(s.subrange(0, 8) =~= s);
    bytes::lemma_le64(a, s, 0);
    bytes::lemma_le64(b, s, 0);
}

proof fn lemma_matrix_len(m: Seq<u32>, n: int)
    requires
        0 <= n,
    ensures
        matrix_bytes(m, n).len() == 4 * n,
    decreases n,
{
    if n > 0 {
        lemma_matrix_len(m, n - 1);
    }
}

proof fn lemma_same_matrix(a: Seq<u32>, b: Seq<u32>, n: int)
    requires
        0 <= n <= a.len(),
        n <= b.len(),
        matrix_bytes(a, n) == matrix_bytes(b, n),
    ensures
        forall|i: int| 0 <= i < n ==> a[i] == b[i],
    decreases n,
{
    if n > 0 {
        lemma_matrix_len(a, n - 1);
        lemma_matrix_len(b, n - 1);
        lemma_split(
            matrix_bytes(a, n - 1),
            bytes::le32(a[n - 1]),
            matrix_bytes(b, n - 1),
            bytes::le32(b[n - 1]),
        );
        let s = bytes::le32(a[n - 1]);
        assert(s.subrange(0, 4) =~= s);
        bytes::lemma_le32(a[n - 1], s, 0);
        bytes::lemma_le32(b[n - 1], s, 0);
        lemma_same_matrix(a, b, n - 1);
    }
}

/// The key covers every input that changes the map: two inputs are hashed from
/// the same bytes only where they agree in all of them.
pub proof fn law_the_key_covers_every_input(a: CacheKeyInput, b: CacheKeyInput)
    requires
        key_bytes(a) == key_bytes(b),
    ensures
        a.light_hash == b.light_hash,
        a.cascade_index == b.cascade_index,
        a.view_proj@ == b.view_proj@,
        a.world_revision == b.world_revision,
        a.static_geometry_revision == b.static_geometry_revision,
        a.filter == b.filter,
        a.map_size == b.map_size,
        a.reversed_z == b.reversed_z,
{
    lemma_matrix_len(a.view_proj@, 16);
    lemma_matrix_len(b.view_proj@, 16);
    let a1 = bytes::le64(a.light_hash) + bytes::le64(a.cascade_index as u64);
    let b1 = bytes::le64(b.light_hash) + bytes::le64(b.cascade_index as u64);
    let a2 = a1 + matrix_bytes(a.view_proj@, 16);
    let b2 = b1 + matrix_bytes(b.view_proj@, 16);
    let a3 = a2 + bytes::le64(a.world_revision);
    let b3 = b2 + bytes::le64(b.world_revision);
    let a4 = a3 + bytes::le64(a.static_geometry_revision);
    let b4 = b3 + bytes::le64(b.static_geometry_revision);
    let a5 = a4 + bytes::le64(a.filter as u64);
    let b5 = b4 + bytes::le64(b.filter as u64);
    let a6 = a5 + bytes::le64(a.map_size as u64);
    let b6 = b5 + bytes::le64(b.map_size as u64);
    lemma_split(a6, bytes::le64(flag(a.reversed_z)), b6, bytes::le64(flag(b.reversed_z)));
    lemma_split(a5, bytes::le64(a.map_size as u64), b5, bytes::le64(b.map_size as u64));
    lemma_split(a4, bytes::le64(a.filter as u64), b4, bytes::le64(b.filter as u64));
    lemma_split(
        a3,
        bytes::le64(a.static_geometry_revision),
        b3,
        bytes::le64(b.static_geometry_revision),
    );
    lemma_split(a2, bytes::le64(a.world_revision), b2, bytes::le64(b.world_revision));
    lemma_split(a1, matrix_bytes(a.view_proj@, 16), b1, matrix_bytes(b.view_proj@, 16));
    lemma_split(
        bytes::le64(a.light_hash),
        bytes::le64(a.cascade_index as u64),
        bytes::le64(b.light_hash),
        bytes::le64(b.cascade_index as u64),
    );
    lemma_same_number(a.light_hash, b.light_hash);
    lemma_same_number(a.cascade_index as u64, b.cascade_index as u64);
    lemma_same_number(a.world_revision, b.world_revision);
    lemma_same_number(a.static_geometry_revision, b.static_geometry_revision);
    lemma_same_number(a.filter as u64, b.filter as u64);
    lemma_same_number(a.map_size as u64, b.map_size as u64);
    lemma_same_number(flag(a.reversed_z), flag(b.reversed_z));
    lemma_same_matrix(a.view_proj@, b.view_proj@, 16);
    assert(a.view_proj@ =~= b.view_proj@);
}

/// The cascades that were fitted, nearest first.
pub struct CascadeSet<T> {
    pub fits: Vec<T>,
}

impl<T> CascadeSet<T> {
    pub open spec fn wf(&self) -> bool {
        self.fits@.len() <= MAX_CASCADES
    }

    pub fn empty() -> (r: CascadeSet<T>)
        ensures
            r.wf(),
            r.fits@.len() == 0,
    {
        CascadeSet { fits: Vec::new() }
    }

    pub fn count(&self) -> (n: u32)
        requires
            self.wf(),
        ensures
            n == self.fits@.len(),
    {
        self.fits.len() as u32
    }

    pub fn get(&self, index: usize) -> (r: Option<&T>)
        ensures
            match r {
                Some(f) => index < self.fits@.len() && *f == self.fits@[index as int],
                None => index >= self.fits@.len(),
            },
    {
        if index < self.fits.len() {
            Some(&self.fits[index])
        } else {
            None
        }
    }

    /// Appends the next cascade; false where there is no room for another.
    pub fn push(&mut self, fit: T) -> (r: bool)
        requires
            old(self).wf(),
        ensures
            final(self).wf(),
            r == (old(self).fits@.len() < MAX_CASCADES),
            final(self).fits@ == if r {
                old(self).fits@.push(fit)
            } else {
                old(self).fits@
            },
    {
        if self.fits.len() >= MAX_CASCADES {
            return false;
        }
        self.fits.push(fit);
        true
    }
}

/// The tier ladder, top to bottom.
#[derive(Clone, Copy, Debug, PartialEq, Eq, Structural)]
pub enum Tier {
    GpuDiscrete,
    GpuShared,
    CpuRam,
    CpuThrifty,
    OutOfCore,
}

impl Tier {
    pub open spec fn rung(self) -> int {
        match self {
            Tier::GpuDiscrete => 0,
            Tier::GpuShared => 1,
            Tier::CpuRam => 2,
            Tier::CpuThrifty => 3,
            Tier::OutOfCore => 4,
        }
    }
}

/// The biases of a tier, as bit patterns: in shadow-map texels, in depth units
/// before the filter's and the map's scale, and in texel footprints.
#[derive(Clone, Copy, Debug, PartialEq, Eq, Structural)]
pub struct BiasBase {
    pub normal: u32,
    pub depth: u32,
    pub slope: u32,
}

pub open spec fn base_of(tier: Tier) -> BiasBase {
    match tier {
        Tier::GpuDiscrete => BiasBase { normal: 0x3f80_0000, depth: 0x391d_4952, slope: 0x3fc0_0000 },
        Tier::GpuShared => BiasBase { normal: 0x3fa0_0000, depth: 0x3983_126f, slope: 0x3fe0_0000 },
        Tier::CpuRam => BiasBase { normal: 0x3fe0_0000, depth: 0x39d1_b717, slope: 0x4000_0000 },
        Tier::CpuThrifty => BiasBase { normal: 0x4010_0000, depth: 0x3a1d_4952, slope: 0x4020_0000 },
        Tier::OutOfCore => BiasBase { normal: 0x4020_0000, depth: 0x3a51_b717, slope: 0x4040_0000 },
    }
}

/// The one table of bias values. The tier changes it because a scene tuned on the
/// top tier shows acne further down, and a per-run guess is not reproducible.
pub fn bias_base(tier: Tier) -> (r: BiasBase)
    ensures
        r == base_of(tier),
{
    match tier {
        Tier::GpuDiscrete => BiasBase { normal: 0x3f80_0000, depth: 0x391d_4952, slope: 0x3fc0_0000 },
        Tier::GpuShared => BiasBase { normal: 0x3fa0_0000, depth: 0x3983_126f, slope: 0x3fe0_0000 },
        Tier::CpuRam => BiasBase { normal: 0x3fe0_0000, depth: 0x39d1_b717, slope: 0x4000_0000 },
        Tier::CpuThrifty => BiasBase { normal: 0x4010_0000, depth: 0x3a1d_4952, slope: 0x4020_0000 },
        Tier::OutOfCore => BiasBase { normal: 0x4020_0000, depth: 0x3a51_b717, slope: 0x4040_0000 },
    }
}

/// How a filter scales the depth bias: one with more taps averages more of the
/// neighbourhood, which lifts the depth it compares against.
pub open spec fn scale_of(filter: u32) -> u32 {
    if filter == FILTER_HARD {
        0x3f00_0000
    } else if filter == FILTER_PCF3X3 {
        0x3f80_0000
    } else if filter == FILTER_PCF5X5 {
        0x3fc0_0000
    } else {
        0x4000_0000
    }
}

pub fn filter_scale(filter: u32) -> (r: u32)
    ensures
        r == scale_of(filter),
{
    if filter == FILTER_HARD {
        0x3f00_0000
    } else if filter == FILTER_PCF3X3 {
        0x3f80_0000
    } else if filter == FILTER_PCF5X5 {
        0x3fc0_0000
    } else {
        0x4000_0000
    }
}

/// A lower tier never gets less bias than a higher one, nor a filter with more
/// taps less than one with fewer.
pub proof fn law_biases_are_ordered(a: Tier, b: Tier, f: u32, g: u32)
    requires
        a.rung() < b.rung(),
        f < g <= FILTER_PCSS_LITE,
    ensures
        single::is_less(base_of(a).normal, base_of(b).normal),
        single::is_less(base_of(a).depth, base_of(b).depth),
        single::is_less(base_of(a).slope, base_of(b).slope),
        single::is_less(scale_of(f), scale_of(g)),
{
}

/// A sample takes the first cascade that reaches it, and the last when none does: of
/// distances and splits that are no less than nothing.
pub proof fn law_a_sample_takes_the_first_cascade_that_reaches_it(
    splits: Seq<u32>,
    distance: u32,
)
    requires
        splits.len() > 0,
        distance <= 0x7f80_0000,
        forall|i: int| 0 <= i < splits.len() ==> #[trigger] splits[i] <= 0x7f80_0000,
    ensures
        cascade_at(splits, distance) matches Some(i) && 0 <= i < splits.len() && (forall|j: int|
            0 <= j < i ==> #[trigger] splits[j] < distance) && (distance <= splits[i] || i
            == splits.len() - 1),
{
    lemma_reaching(splits, distance, 0);
    let i = reaching(splits, distance, 0);
    if i == splits.len() {
        assert(splits[splits.len() - 1] < distance);
    }
}

proof fn lemma_reaching(splits: Seq<u32>, distance: u32, from: int)
    requires
        0 <= from <= splits.len(),
        distance <= 0x7f80_0000,
        forall|i: int| 0 <= i < splits.len() ==> #[trigger] splits[i] <= 0x7f80_0000,
    ensures
        ({
            let i = reaching(splits, distance, from);
            &&& from <= i <= splits.len()
            &&& forall|j: int| from <= j < i ==> #[trigger] splits[j] < distance
            &&& i < splits.len() ==> distance <= splits[i]
        }),
    decreases splits.len() - from,
{
    if from < splits.len() && !single::is_at_most(distance, splits[from]) {
        lemma_reaching(splits, distance, from + 1);
    }
}

/// A tap outside a map reads the nearest place inside it.
pub proof fn law_a_tap_stays_in_its_map(i: int, size: int, other: int)
    requires
        0 <= other < size,
    ensures
        0 <= inside(i, size) < size,
        0 <= i < size ==> inside(i, size) == i,
        i < other ==> i <= inside(i, size) <= other,
        i > other ==> other <= inside(i, size) <= i,
{
}

/// A place is lit without a look at any map when it is farther than shadows go, when
/// there is no cascade, or when the cascade that reaches it has no map with pixels; and
/// in no other case.
pub proof fn law_only_a_map_can_shadow(
    distance: u32,
    max_distance: u32,
    splits: Seq<u32>,
    map_index: Seq<u32>,
    maps: Seq<(u32, u32, usize)>,
    i: int,
)
    requires
        distance <= 0x7f80_0000,
        max_distance <= 0x7f80_0000,
        splits.len() == map_index.len(),
        cascade_at(splits, distance) == Some(i),
        0 <= i < splits.len(),
    ensures
        !is_lit(distance, max_distance, splits, map_index, maps) <==> distance <= max_distance
            && map_index[i] < maps.len() && maps[map_index[i] as int].0 > 0
            && maps[map_index[i] as int].1 > 0 && maps[map_index[i] as int].2 > 0,
        is_lit(distance, max_distance, Seq::empty(), Seq::empty(), maps),
{
}

} // verus!
