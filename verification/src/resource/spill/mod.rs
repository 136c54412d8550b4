//! The spill arena: an append-only cache file with a checksum per entry.
//!
//! **Disk is a cache, not a state store.** Deleting the file at any time costs
//! performance and never correctness, so every read is validated and every
//! failure is a miss.
//!
//! ## Format
//!
//! ```text
//! header (32 bytes)
//!   magic       "RCLS" (u32)
//!   version     u32
//!   reserved    u64
//!   seed        u64            (checksum seed, fixed per arena)
//!   header_crc  u64            (xxHash64 of the 24 bytes before it)
//! record, repeated
//!   magic       u32 = RECORD_MAGIC
//!   payload_len u32
//!   key         u64
//!   checksum    u64            (xxHash64 of the payload, seeded)
//!   payload     payload_len bytes
//! ```
//!
//! ## Recovery
//!
//! On open the file is scanned record by record. A record whose magic, length or
//! checksum does not validate ends the scan: the arena is truncated to the last
//! good record and everything after it is forgotten. A process killed mid-write
//! therefore leaves a cache that is smaller, never one that is wrong.
//!
//! The arena decides; the host moves the bytes. What it is to write, truncate or
//! read comes out of one call, and how that went goes into the next.
pub mod arena;
pub mod contents;
pub mod layout;
pub mod laws;
