//! The reference scene: the one arrangement of geometry, light and camera that
//! the golden image, the cross-tier comparison and the tools all share.
//!
//! This module is the scene's only owner, so a comparison between two tools or
//! two tiers is a comparison of the same scene rather than of two scenes that
//! agree today.
//!
//! Nothing here computes with a coordinate, a colour or a bias: each is carried
//! as the bit pattern of its single-precision number.
use crate::text;
use vstd::prelude::*;

verus! {

#[derive(Clone, Copy, Debug, PartialEq, Eq, Structural)]
pub struct Bits2 {
    pub x: u32,
    pub y: u32,
}

#[derive(Clone, Copy, Debug, PartialEq, Eq, Structural)]
pub struct Bits3 {
    pub x: u32,
    pub y: u32,
    pub z: u32,
}

#[derive(Clone, Copy, Debug, PartialEq, Eq, Structural)]
pub struct Bits4 {
    pub x: u32,
    pub y: u32,
    pub z: u32,
    pub w: u32,
}

/// A vertex in the layout the reference pipeline declares: position, normal,
/// texture coordinate, colour.
#[derive(Clone, Copy, Debug, PartialEq, Eq, Structural)]
pub struct V {
    pub pos: Bits3,
    pub nrm: Bits3,
    pub uv: Bits2,
    pub col: Bits4,
}

/// One draw: a vertex buffer and the indices into it.
pub struct Chunk {
    pub verts: Vec<V>,
    pub indices: Vec<u32>,
}

/// The camera the frame is rendered from, and declared to the shadow system.
#[derive(Clone, Copy, Debug, PartialEq, Eq, Structural)]
pub struct CameraSpec {
    pub fov_y_deg: u32,
    pub near: u32,
    pub far: u32,
    pub eye_height: u32,
    pub eye_distance: u32,
}

/// The one directional light, and whether it casts.
#[derive(Clone, Copy, Debug, PartialEq, Eq, Structural)]
pub struct LightSpec {
    pub direction: Bits3,
    pub color: Bits3,
    pub intensity: u32,
    pub cast_shadow: bool,
}

/// `--shadows`: the three modes a run can be measured in.
#[derive(Clone, Copy, Debug, PartialEq, Eq, Structural)]
pub enum ShadowMode {
    /// No shadow pass and no shadow terms.
    Off,
    /// The default: the static cascade is re-rendered whenever the world moves.
    On,
    /// The static cascade is held across frames and, where the tier has one,
    /// backed by the disk arena.
    Cached,
}

impl ShadowMode {
    pub open spec fn spelling(self) -> Seq<char> {
        match self {
            ShadowMode::Off => "off"@,
            ShadowMode::On => "on"@,
            ShadowMode::Cached => "cached"@,
        }
    }

    pub open spec fn named(name: Seq<char>) -> Option<ShadowMode> {
        if name == "off"@ || name == "0"@ {
            Some(ShadowMode::Off)
        } else if name == "on"@ || name == "1"@ {
            Some(ShadowMode::On)
        } else if name == "cached"@ {
            Some(ShadowMode::Cached)
        } else {
            None
        }
    }

    /// Reads `off`, `on` or `cached`.
    pub fn from_name(name: &str) -> (r: Option<ShadowMode>)
        ensures
            r == ShadowMode::named(name@),
    {
        if text::same(name, "off") || text::same(name, "0") {
            Some(ShadowMode::Off)
        } else if text::same(name, "on") || text::same(name, "1") {
            Some(ShadowMode::On)
        } else if text::same(name, "cached") {
            Some(ShadowMode::Cached)
        } else {
            None
        }
    }

    pub fn name(self) -> (r: &'static str)
        ensures
            r@ == self.spelling(),
    {
        match self {
            ShadowMode::Off => "off",
            ShadowMode::On => "on",
            ShadowMode::Cached => "cached",
        }
    }
}

/// A mode's name reads back as that mode.
pub proof fn law_shadow_mode_names_read_back(mode: ShadowMode)
    ensures
        ShadowMode::named(mode.spelling()) == Some(mode),
{
    reveal_strlit("off");
    reveal_strlit("0");
    reveal_strlit("on");
    reveal_strlit("1");
    reveal_strlit("cached");
    let name = mode.spelling();
    assert(mode is On ==> name.len() == 2);
    assert(mode is Cached ==> name.len() == 6);
}

/// The shadow configuration a scene asks for.
#[derive(Clone, Copy, Debug, PartialEq, Eq, Structural)]
pub struct ShadowSpec {
    pub enabled: bool,
    pub cascade_count: u32,
    pub texel_budget_bytes: u64,
    pub filter: u32,
    pub max_distance: u32,
    pub blend_band: u32,
    pub normal_bias: u32,
    pub depth_bias: u32,
    pub slope_bias: u32,
    pub resolution_scale: u32,
    pub allow_disk_cache: bool,
    pub freeze_static_cascade: bool,
    pub refresh_interval_frames: u32,
}

pub open spec fn reference_shadows() -> ShadowSpec {
    ShadowSpec {
        enabled: true,
        cascade_count: 2,
        texel_budget_bytes: 0x80_0000,
        filter: 1,
        max_distance: 0x429a_0000,
        blend_band: 0x4040_0000,
        normal_bias: 0x3fa0_0000,
        depth_bias: 0x3a03_126f,
        slope_bias: 0x3fe0_0000,
        resolution_scale: ONE,
        allow_disk_cache: false,
        freeze_static_cascade: false,
        refresh_interval_frames: 1,
    }
}

/// What a mode changes in the reference configuration.
pub open spec fn shadows_in(mode: ShadowMode) -> ShadowSpec {
    match mode {
        ShadowMode::Off => ShadowSpec { enabled: false, ..reference_shadows() },
        ShadowMode::On => reference_shadows(),
        ShadowMode::Cached => ShadowSpec {
            freeze_static_cascade: true,
            allow_disk_cache: true,
            refresh_interval_frames: 60,
            ..reference_shadows()
        },
    }
}

impl ShadowSpec {
    /// The reference configuration, and the reason for each value:
    ///
    /// * **Two cascades over an 8 MiB texel budget**, which both tiers round to
    ///   512x512 maps, so the tiers differ in rasteriser and not in shadow
    ///   resolution.
    /// * **PCF 3x3**, both tiers' cap at that budget.
    /// * **The bias triple is pinned** rather than left to the tier: the tier's own
    ///   preset is larger on software tiers by design, and that difference lands on
    ///   a shadow's edge as a pixel of coverage.
    pub fn reference() -> (r: ShadowSpec)
        ensures
            r == reference_shadows(),
    {
        ShadowSpec {
            enabled: true,
            cascade_count: 2,
            texel_budget_bytes: 0x80_0000,
            filter: 1,
            max_distance: 0x429a_0000,
            blend_band: 0x4040_0000,
            normal_bias: 0x3fa0_0000,
            depth_bias: 0x3a03_126f,
            slope_bias: 0x3fe0_0000,
            resolution_scale: ONE,
            allow_disk_cache: false,
            freeze_static_cascade: false,
            refresh_interval_frames: 1,
        }
    }

    /// The reference configuration in one of the three measured modes.
    pub fn for_mode(mode: ShadowMode) -> (r: ShadowSpec)
        ensures
            r == shadows_in(mode),
    {
        let mut spec = ShadowSpec::reference();
        match mode {
            ShadowMode::Off => {
                spec.enabled = false;
            },
            ShadowMode::On => {},
            ShadowMode::Cached => {
                spec.freeze_static_cascade = true;
                spec.allow_disk_cache = true;
                // The static cascade still refreshes periodically; the counters
                // say whether the tier reused it in between.
                spec.refresh_interval_frames = 60;
            },
        }
        spec
    }
}

/// Everything a frame needs to be drawn.
pub struct Scene {
    pub chunks: Vec<Chunk>,
    pub camera: CameraSpec,
    pub light: LightSpec,
    pub shadows: ShadowSpec,
}

pub const ZERO: u32 = 0;

pub const ONE: u32 = 0x3f80_0000;

/// The ground plane's half-extent, 16: the quad reaches past the frame on every
/// side, so every ground pixel is a candidate receiver.
pub const GROUND_HALF: u32 = 0x4180_0000;

pub const MINUS_GROUND_HALF: u32 = 0xc180_0000;

/// The caster's height, 4.3: its screen position and its shadow's differ by this
/// much parallax, so it does not hide what it casts.
pub const CASTER_HEIGHT: u32 = 0x4089_999a;

pub open spec fn ground_corner(x: u32, z: u32) -> V {
    V {
        pos: Bits3 { x, y: ZERO, z },
        nrm: Bits3 { x: ZERO, y: ONE, z: ZERO },
        uv: Bits2 { x: ZERO, y: ZERO },
        col: Bits4 { x: 0x3e80_0000, y: 0x3eb3_3333, z: ONE, w: ONE },
    }
}

pub open spec fn caster_corner(x: u32, z: u32) -> V {
    V {
        pos: Bits3 { x, y: CASTER_HEIGHT, z },
        nrm: Bits3 { x: ZERO, y: ONE, z: ZERO },
        uv: Bits2 { x: ZERO, y: ZERO },
        col: Bits4 { x: 0x3f73_3333, y: 0x3f73_3333, z: 0x3f73_3333, w: ONE },
    }
}

fn vertex(x: u32, y: u32, z: u32, col: Bits4) -> (r: V)
    ensures
        r == (V {
            pos: Bits3 { x, y, z },
            nrm: Bits3 { x: ZERO, y: ONE, z: ZERO },
            uv: Bits2 { x: ZERO, y: ZERO },
            col,
        }),
{
    V {
        pos: Bits3 { x, y, z },
        nrm: Bits3 { x: ZERO, y: ONE, z: ZERO },
        uv: Bits2 { x: ZERO, y: ZERO },
        col,
    }
}

pub open spec fn reference_camera() -> CameraSpec {
    CameraSpec {
        fov_y_deg: 0x4234_0000,
        near: 0x3f00_0000,
        far: 0x42c8_0000,
        eye_height: 0x4150_0000,
        eye_distance: 0x4120_0000,
    }
}

pub open spec fn reference_light(cast_shadow: bool) -> LightSpec {
    LightSpec {
        direction: Bits3 { x: 0x3dcc_cccd, y: 0xbf80_0000, z: 0x3fc6_6666 },
        color: Bits3 { x: ONE, y: ONE, z: ONE },
        intensity: ONE,
        cast_shadow,
    }
}

/// The blue ground quad under a white triangle.
pub open spec fn is_reference_geometry(chunks: Seq<Chunk>) -> bool {
    &&& chunks.len() == 2
    &&& chunks[0].verts@ == seq![
        ground_corner(MINUS_GROUND_HALF, MINUS_GROUND_HALF),
        ground_corner(GROUND_HALF, MINUS_GROUND_HALF),
        ground_corner(GROUND_HALF, GROUND_HALF),
        ground_corner(MINUS_GROUND_HALF, GROUND_HALF),
    ]
    &&& chunks[0].indices@ == seq![0u32, 1, 2, 0, 2, 3]
    &&& chunks[1].verts@ == seq![
        caster_corner(0xc0c8_0000, 0xc079_999a),
        caster_corner(0x40b1_999a, 0xc090_0000),
        caster_corner(0xbeb3_3333, 0xbf66_6666),
    ]
    &&& chunks[1].indices@ == seq![0u32, 1, 2]
}

/// The reference scene in a shadow mode.
pub open spec fn is_reference(scene: Scene, mode: ShadowMode) -> bool {
    &&& is_reference_geometry(scene.chunks@)
    &&& scene.camera == reference_camera()
    &&& scene.light == reference_light(mode != ShadowMode::Off)
    &&& scene.shadows == shadows_in(mode)
}

/// The indices of all the chunks together.
pub open spec fn index_total(chunks: Seq<Chunk>) -> nat
    decreases chunks.len(),
{
    if chunks.len() == 0 {
        0
    } else {
        index_total(chunks.drop_last()) + chunks.last().indices@.len()
    }
}

proof fn lemma_index_total_grows(chunks: Seq<Chunk>, n: int)
    requires
        0 <= n <= chunks.len(),
    ensures
        index_total(chunks.take(n)) <= index_total(chunks),
    decreases chunks.len() - n,
{
    if n < chunks.len() {
        lemma_index_total_grows(chunks, n + 1);
        assert(chunks.take(n + 1).drop_last() =~= chunks.take(n));
    } else {
        assert(chunks.take(n) =~= chunks);
    }
}

impl Scene {
    /// The reference scene: a shadowed triangle in front of a blue ground quad,
    /// under one low directional light that throws the shadow toward the camera.
    ///
    /// The arrangement is the point. A golden is only worth committing if the
    /// feature it is named for dominates it, so the shadow is made large rather
    /// than incidentally present.
    pub fn reference() -> (r: Scene)
        ensures
            is_reference(r, ShadowMode::On),
    {
        let blue = Bits4 { x: 0x3e80_0000, y: 0x3eb3_3333, z: ONE, w: ONE };
        let white = Bits4 { x: 0x3f73_3333, y: 0x3f73_3333, z: 0x3f73_3333, w: ONE };
        let (g, m) = (GROUND_HALF, MINUS_GROUND_HALF);
        let mut verts: Vec<V> = Vec::new();
        verts.push(vertex(m, ZERO, m, blue));
        verts.push(vertex(g, ZERO, m, blue));
        verts.push(vertex(g, ZERO, g, blue));
        verts.push(vertex(m, ZERO, g, blue));
        let mut indices: Vec<u32> = Vec::new();
        indices.push(0);
        indices.push(1);
        indices.push(2);
        indices.push(0);
        indices.push(2);
        indices.push(3);
        let ground = Chunk { verts, indices };

        // Wound like the ground, and that is not cosmetic: the shadow pass culls
        // the far side on the light's view, so a caster would be culled with it.
        let h: u32 = CASTER_HEIGHT;
        let mut verts: Vec<V> = Vec::new();
        verts.push(vertex(0xc0c8_0000, h, 0xc079_999a, white));
        verts.push(vertex(0x40b1_999a, h, 0xc090_0000, white));
        verts.push(vertex(0xbeb3_3333, h, 0xbf66_6666, white));
        let mut indices: Vec<u32> = Vec::new();
        indices.push(0);
        indices.push(1);
        indices.push(2);
        let caster = Chunk { verts, indices };

        let mut chunks: Vec<Chunk> = Vec::new();
        assert(ground.verts@ =~= seq![
            ground_corner(m, m),
            ground_corner(g, m),
            ground_corner(g, g),
            ground_corner(m, g),
        ]);
        assert(ground.indices@ =~= seq![0u32, 1, 2, 0, 2, 3]);
        assert(caster.verts@ =~= seq![
            caster_corner(0xc0c8_0000, 0xc079_999a),
            caster_corner(0x40b1_999a, 0xc090_0000),
            caster_corner(0xbeb3_3333, 0xbf66_6666),
        ]);
        assert(caster.indices@ =~= seq![0u32, 1, 2]);
        chunks.push(ground);
        chunks.push(caster);
        Scene {
            chunks,
            camera: CameraSpec {
                fov_y_deg: 0x4234_0000,
                near: 0x3f00_0000,
                far: 0x42c8_0000,
                eye_height: 0x4150_0000,
                eye_distance: 0x4120_0000,
            },
            // The low sun is where the shadow's size comes from: a shadow's area
            // on the ground is the caster's divided by the cosine of the light's
            // angle to the normal.
            light: LightSpec {
                direction: Bits3 { x: 0x3dcc_cccd, y: 0xbf80_0000, z: 0x3fc6_6666 },
                color: Bits3 { x: ONE, y: ONE, z: ONE },
                intensity: ONE,
                cast_shadow: true,
            },
            shadows: ShadowSpec::reference(),
        }
    }

    /// The reference scene in a given shadow mode.
    pub fn with_shadow_mode(mode: ShadowMode) -> (r: Scene)
        ensures
            is_reference(r, mode),
    {
        let mut scene = Scene::reference();
        scene.shadows = ShadowSpec::for_mode(mode);
        scene.light.cast_shadow = mode != ShadowMode::Off;
        scene
    }

    /// Triangles across every chunk, in 32 bits.
    pub fn triangle_count(&self) -> (r: u32)
        requires
            index_total(self.chunks@) <= usize::MAX,
        ensures
            r == (index_total(self.chunks@) / 3) % 0x1_0000_0000,
    {
        let mut total: usize = 0;
        let mut i: usize = 0;
        while i < self.chunks.len()
            invariant
                i <= self.chunks@.len(),
                index_total(self.chunks@) <= usize::MAX,
                total == index_total(self.chunks@.take(i as int)),
            decreases self.chunks@.len() - i,
        {
            proof {
                lemma_index_total_grows(self.chunks@, i + 1);
                assert(self.chunks@.take(i + 1).drop_last() =~= self.chunks@.take(i as int));
                assert(self.chunks@[i as int].indices.len() == self.chunks@[i as int].indices@.len());
            }
            total = total + self.chunks[i].indices.len();
            i += 1;
        }
        assert(self.chunks@.take(i as int) =~= self.chunks@);
        ((total / 3) as u64 % 0x1_0000_0000) as u32
    }
}

/// The three modes draw the same geometry from the same camera under the same
/// light: a shadow mode changes the shadow pass, never the scene.
pub proof fn law_shadow_modes_differ_only_in_shadows(
    a: Scene,
    m: ShadowMode,
    b: Scene,
    n: ShadowMode,
)
    requires
        is_reference(a, m),
        is_reference(b, n),
    ensures
        a.camera == b.camera,
        a.chunks@.len() == b.chunks@.len(),
        forall|i: int|
            0 <= i < a.chunks@.len() ==> (#[trigger] a.chunks@[i]).verts@ == b.chunks@[i].verts@
                && a.chunks@[i].indices@ == b.chunks@[i].indices@,
        a.light == (LightSpec { cast_shadow: a.light.cast_shadow, ..b.light }),
        a.shadows.enabled == (m != ShadowMode::Off),
        a.light.cast_shadow == (m != ShadowMode::Off),
{
}

/// The reference scene is three triangles: two of ground, and the caster.
pub proof fn law_the_reference_scene_is_three_triangles(scene: Scene, mode: ShadowMode)
    requires
        is_reference(scene, mode),
    ensures
        index_total(scene.chunks@) == 9,
{
    reveal_with_fuel(index_total, 3);
    assert(scene.chunks@.drop_last().drop_last().len() == 0);
}

/// A mode is what its shadows do: only when they are cached is the static cascade held
/// and the disk used, and then it is drawn again every sixty frames at the earliest; in
/// every other respect the modes are alike.
pub proof fn law_only_cached_shadows_are_held(mode: ShadowMode)
    ensures
        ({
            let (s, on) = (shadows_in(mode), shadows_in(ShadowMode::On));
            &&& s.enabled == (mode != ShadowMode::Off)
            &&& s.freeze_static_cascade == (mode == ShadowMode::Cached)
            &&& s.allow_disk_cache == (mode == ShadowMode::Cached)
            &&& s.refresh_interval_frames == if mode == ShadowMode::Cached {
                60int
            } else {
                1
            }
            &&& s == (ShadowSpec {
                enabled: s.enabled,
                freeze_static_cascade: s.freeze_static_cascade,
                allow_disk_cache: s.allow_disk_cache,
                refresh_interval_frames: s.refresh_interval_frames,
                ..on
            })
        }),
{
}

} // verus!
