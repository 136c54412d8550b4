//! What a renderer keeps outside of a frame: mip chains, staging memory and the
//! cache on disk.
pub mod mips;
pub mod spill;
pub mod staging;

use vstd::prelude::*;

verus! {

/// Where a resource is resident right now.
#[derive(Clone, Copy, PartialEq, Eq, Debug, Structural)]
pub enum Residency {
    Vram,
    Ram,
    Disk,
}

} // verus!
