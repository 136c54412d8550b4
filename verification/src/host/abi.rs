//! The numbers the renderer's binary interface gives its names.
use vstd::prelude::*;

verus! {

pub const CAP_TEXTURES: u32 = 0x1;

pub const CAP_MIPMAPS: u32 = 0x2;

pub const CAP_SHADOWS: u32 = 0x4;

pub const CAP_PCF_5X5: u32 = 0x8;

pub const CAP_PCSS_LITE: u32 = 0x10;

pub const CAP_DISK_SPILL: u32 = 0x20;

pub const CAP_MULTITHREAD: u32 = 0x40;

pub const CAP_OUT_OF_CORE: u32 = 0x80;

pub const CAP_CACHED_CASCADE: u32 = 0x100;

pub const CAP_SIMD_SSE2: u32 = 0x200;

pub const CAP_SIMD_AVX2: u32 = 0x400;

pub const CAP_SIMD_NEON: u32 = 0x800;

pub const CAP_SIMD_WASM128: u32 = 0x1000;

pub const CAP_COMPUTE: u32 = 0x2000;

pub const CAP_PRESENT_TO_MEMORY: u32 = 0x4000;

/// Every capability bit that has a name.
pub const CAPS_NAMED: u32 = 0x7fff;

pub const BACKEND_NONE: u32 = 0;

pub const BACKEND_SOFT_CPU: u32 = 1;

pub const BACKEND_NULL: u32 = 2;

pub const BACKEND_D3D11: u32 = 3;

pub const BACKEND_D3D12: u32 = 4;

pub const BACKEND_VULKAN: u32 = 5;

pub const BACKEND_GL: u32 = 6;

pub const BACKEND_METAL: u32 = 7;

pub const BACKEND_WEBGPU: u32 = 8;

pub const BACKEND_WASM_WEBGL2: u32 = 9;

/// Every step down the tier ladder is allowed.
pub const ALLOW_DOWNGRADE_ALL: u32 = 0xffff_ffff;

/// No step down the tier ladder is allowed.
pub const ALLOW_DOWNGRADE_NONE: u32 = 0;

/// The most backends a probe reports.
pub const MAX_BACKENDS: usize = 16;

/// One command's slot in a command list, in bytes.
pub const COMMAND_BYTES: u32 = 64;

pub const RESULT_OK: i32 = 0;

} // verus!
