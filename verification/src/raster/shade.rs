//! The lights of a frame, and what decides whether a fragment is kept.
use crate::host::scene::Bits3;
use crate::raster::single;
use crate::raster::{PipelineState, COMPARE_GREATER};
use vstd::prelude::*;

verus! {

pub const MAX_LIGHTS: usize = 16;

pub const LIGHT_DIRECTIONAL: u32 = 0;

pub const LIGHT_SPOT: u32 = 1;

pub const LIGHT_POINT: u32 = 2;

/// A light. Its numbers are bit patterns.
#[derive(Clone, Copy, Debug, PartialEq, Eq, Structural)]
pub struct Light {
    pub kind: u32,
    pub position: Bits3,
    pub direction: Bits3,
    pub color: Bits3,
    pub intensity: u32,
    pub range: u32,
    pub cos_inner: u32,
    pub cos_outer: u32,
    pub cast_shadow: bool,
    /// Index into the shadow-cascade list, or `u32::MAX` when unshadowed.
    pub cascade_base: u32,
}

impl Light {
    pub fn directional(direction: Bits3, color: Bits3, intensity: u32) -> (r: Light)
        ensures
            r == (Light {
                kind: LIGHT_DIRECTIONAL,
                position: Bits3 { x: 0, y: 0, z: 0 },
                direction,
                color,
                intensity,
                range: 0,
                cos_inner: single::ONE,
                cos_outer: single::ONE,
                cast_shadow: true,
                cascade_base: u32::MAX,
            }),
    {
        Light {
            kind: LIGHT_DIRECTIONAL,
            position: Bits3 { x: 0, y: 0, z: 0 },
            direction,
            color,
            intensity,
            range: 0,
            cos_inner: single::ONE,
            cos_outer: single::ONE,
            cast_shadow: true,
            cascade_base: u32::MAX,
        }
    }
}

/// The lights a frame draws with, and the ambient term as bit patterns.
pub struct LightSet {
    pub lights: Vec<Light>,
    pub ambient: Bits3,
}

/// The ambient term of a new set: 0.06, 0.07 and 0.075.
pub open spec fn default_ambient() -> Bits3 {
    Bits3 { x: 0x3d75_c28f, y: 0x3d8f_5c29, z: 0x3d99_999a }
}

impl Default for LightSet {
    fn default() -> (r: Self)
        ensures
            r.wf(),
            r.lights@.len() == 0,
            r.ambient == default_ambient(),
    {
        Self::new()
    }
}

impl LightSet {
    pub open spec fn wf(&self) -> bool {
        self.lights@.len() <= MAX_LIGHTS
    }

    pub fn new() -> (r: LightSet)
        ensures
            r.wf(),
            r.lights@.len() == 0,
            r.ambient == default_ambient(),
    {
        LightSet {
            lights: Vec::new(),
            ambient: Bits3 { x: 0x3d75_c28f, y: 0x3d8f_5c29, z: 0x3d99_999a },
        }
    }

    pub fn count(&self) -> (n: u32)
        requires
            self.wf(),
        ensures
            n == self.lights@.len(),
    {
        self.lights.len() as u32
    }

    /// Returns false when the set is full: the caller counts the drop rather than
    /// silently rendering without the light.
    pub fn push(&mut self, light: Light) -> (r: bool)
        requires
            old(self).wf(),
        ensures
            final(self).wf(),
            final(self).ambient == old(self).ambient,
            r == (old(self).lights@.len() < MAX_LIGHTS),
            final(self).lights@ == if r {
                old(self).lights@.push(light)
            } else {
                old(self).lights@
            },
    {
        if self.lights.len() >= MAX_LIGHTS {
            return false;
        }
        self.lights.push(light);
        true
    }
}

/// Does a fragment pass the depth test? `stored` is the depth at its pixel, where
/// the target has depths.
pub open spec fn passes_depth(p: PipelineState, depth: u32, stored: Option<u32>) -> bool {
    match stored {
        Some(s) if p.depth_test => if p.depth_compare == COMPARE_GREATER {
            single::is_less(s, depth)
        } else {
            single::is_less(depth, s)
        },
        _ => true,
    }
}

/// The depth test, on bit patterns.
pub fn depth_test(p: &PipelineState, depth: u32, stored: Option<u32>) -> (r: bool)
    ensures
        r == passes_depth(*p, depth, stored),
{
    match stored {
        Some(s) => if p.depth_test {
            if p.depth_compare == COMPARE_GREATER {
                single::less(s, depth)
            } else {
                single::less(depth, s)
            }
        } else {
            true
        },
        None => true,
    }
}

/// Of two fragments at one pixel the nearer one stays, in whichever order they are
/// drawn.
pub proof fn law_the_nearer_fragment_stays(p: PipelineState, a: u32, b: u32, stored: u32)
    requires
        p.depth_test,
        p.depth_compare == COMPARE_GREATER,
        single::is_less(stored, a),
        single::is_less(stored, b),
        single::is_less(b, a),
    ensures
        passes_depth(p, a, Some(stored)),
        !passes_depth(p, b, Some(a)),
        passes_depth(p, b, Some(stored)),
        passes_depth(p, a, Some(b)),
{
}

} // verus!
