use reconl::error::Code;
use reconl::host_vec::HostVec;
use reconl::raster::single::{f32_to_unorm8, unorm8_to_f32};
use reconl::resource::mips::{checkerboard, generate_mip_chain, MipChain};
use reconl::resource::spill::arena::{default_spill_dir, CompactFault, Hit, Lookup, OpenAction, SpillArena, SpillConfig};
use reconl::resource::spill::layout::{RECORD_HEADER_BYTES, RECORD_MAGIC};
use reconl::resource::staging::{StagingBuffer, StagingPool};

#[test]
fn level_count_matches_the_chain() {
    assert_eq!(MipChain::level_count(1, 1), 1);
    assert_eq!(MipChain::level_count(2, 2), 2);
    assert_eq!(MipChain::level_count(4, 4), 3);
    assert_eq!(MipChain::level_count(8, 4), 4);
    assert_eq!(MipChain::level_count(1024, 1024), 11);
}

#[test]
fn a_full_chain_halves_until_one_pixel() {
    // Cell size 1, so the first level's 2x2 footprint straddles both colours.
    let pixels = checkerboard(16, 16, 1, [255, 255, 255, 255], [0, 0, 0, 255]);
    let chain = generate_mip_chain(16, 16, &pixels, 0).unwrap();
    assert_eq!(chain.levels.len(), 5);
    assert_eq!((chain.levels.as_slice()[0].width, chain.levels.as_slice()[0].height), (16, 16));
    assert_eq!((chain.levels.as_slice()[4].width, chain.levels.as_slice()[4].height), (1, 1));
    // A 2x2 checker averages to mid grey at the first level.
    assert_eq!(chain.levels.as_slice()[1].pixels.as_slice()[0], 128);
    assert_eq!(chain.levels.as_slice()[1].pixels.as_slice()[1], 128);
    assert_eq!(chain.levels.as_slice()[1].pixels.as_slice()[3], 255);
}

#[test]
fn generation_is_deterministic_and_capped_by_the_request() {
    let pixels = checkerboard(32, 8, 1, [200, 10, 30, 255], [10, 200, 30, 128]);
    let a = generate_mip_chain(32, 8, &pixels, 0).unwrap();
    let b = generate_mip_chain(32, 8, &pixels, 0).unwrap();
    assert_eq!(a.levels.len(), b.levels.len());
    for (x, y) in a.levels.as_slice().iter().zip(b.levels.as_slice().iter()) {
        assert_eq!(x.pixels.as_slice(), y.pixels.as_slice());
    }
    let capped = generate_mip_chain(32, 8, &pixels, 3).unwrap();
    assert_eq!(capped.levels.len(), 3);
}

#[test]
fn short_uploads_are_refused() {
    let err = match generate_mip_chain(4, 4, &[0u8; 8], 0) {
        Err(e) => e,
        Ok(_) => panic!("a short upload was accepted"),
    };
    assert_eq!(err.code, Code::InvalidArgument);
}

#[test]
fn unorm_round_trip_is_lossless_for_every_byte() {
    for v in 0..=255u8 {
        assert_eq!(f32_to_unorm8(unorm8_to_f32(v)), v, "byte {v} did not round-trip");
        assert_eq!(unorm8_to_f32(v), (v as f32 / 255.0).to_bits(), "byte {v}");
    }
}

#[test]
fn staging_copies_in_and_reports_offsets() {
    let mut buffer = StagingBuffer::new(64).unwrap();
    assert_eq!(buffer.stage(b"hello ").unwrap(), 0);
    assert_eq!(buffer.stage(b"world").unwrap(), 6);
    assert_eq!(buffer.staged(), b"hello world");
    buffer.reset();
    assert_eq!(buffer.staged().len(), 0);
    assert_eq!(buffer.stage(b"again").unwrap(), 0);
}

#[test]
fn a_full_staging_buffer_is_a_returned_error_not_a_crash() {
    let mut buffer = StagingBuffer::new(8).unwrap();
    buffer.stage(b"12345678").unwrap();
    let err = buffer.stage(b"x").unwrap_err();
    assert_eq!(err.code, Code::BudgetExceeded);
    assert_eq!(buffer.staged(), b"12345678");
}

#[test]
fn the_pool_reuses_buffers_instead_of_growing() {
    let mut pool = StagingPool::new(32, 2).unwrap();
    let before = pool.total_capacity();
    for _ in 0..10 {
        let b = pool.take().unwrap();
        b.stage(b"payload").unwrap();
    }
    assert_eq!(pool.buffers.len(), 2, "the pool must not grow on reuse");
    assert_eq!(pool.total_capacity(), before);
}

/// An arena over a file that is held in memory.
struct Disk {
    arena: SpillArena,
    file: Vec<u8>,
}

fn config() -> SpillConfig {
    SpillConfig::new("cache".to_string())
}

impl Disk {
    fn open(config: SpillConfig, mut file: Vec<u8>) -> Disk {
        let (arena, action) = SpillArena::open(config, file.len() as u64, &file).unwrap();
        match action {
            OpenAction::WriteHeader => {
                let header = arena.header();
                file.resize(file.len().max(header.len()), 0);
                file[..header.len()].copy_from_slice(&header);
            }
            OpenAction::Truncate(len) => file.truncate(len as usize),
            OpenAction::Keep => {}
        }
        Disk { arena, file }
    }

    fn put(&mut self, key: u64, payload: &[u8]) -> u64 {
        let pending = self.arena.put(key, payload).unwrap();
        let at = pending.record.offset as usize;
        self.file.resize(self.file.len().max(at + pending.bytes.len()), 0);
        self.file[at..at + pending.bytes.len()].copy_from_slice(&pending.bytes);
        self.arena.commit(&pending, true).unwrap()
    }

    fn get(&mut self, key: u64, out: &mut Vec<u8>) -> Hit {
        match self.arena.get(key, out) {
            Lookup::Miss => Hit::Miss,
            Lookup::Read(offset, len) => {
                let (a, b) = (offset as usize, offset as usize + len as usize);
                let read = if b <= self.file.len() { Some(&self.file[a..b]) } else { None };
                self.arena.finish_get(key, read, out)
            }
        }
    }

    fn compact(&mut self) -> u64 {
        let before = self.file.len() as u64;
        let (mut c, mut image) = self.arena.compact().unwrap();
        while let Some((offset, len)) = self.arena.compact_read(&c) {
            let (a, b) = (offset as usize, offset as usize + len as usize);
            let read = if b <= self.file.len() { Some(&self.file[a..b]) } else { None };
            if let Some(bytes) = self.arena.compact_entry(&mut c, read) {
                image.extend_from_slice(&bytes);
            }
        }
        let after = image.len() as u64;
        self.file = image;
        self.arena.install(c, before, after)
    }

    fn entry(&self, key: u64) -> u64 {
        self.arena.index.iter().find(|s| s.key == key).unwrap().entry.offset
    }
}

#[test]
fn round_trips_payloads_and_survives_reopen() {
    let mut disk = Disk::open(config(), Vec::new());
    disk.put(1, b"first payload");
    disk.put(2, b"second payload");
    assert!(disk.arena.contains(1) && disk.arena.contains(2));
    let mut disk = Disk::open(config(), disk.file);
    assert_eq!(disk.arena.len(), 2, "a clean reopen keeps every entry");
    assert_eq!(disk.arena.stats().recovered_torn, 0);
    let mut out = Vec::new();
    assert_eq!(disk.get(1, &mut out), Hit::Fresh);
    assert_eq!(out, b"first payload");
    assert_eq!(disk.get(9, &mut out), Hit::Miss);
    assert!(out.is_empty());
}

#[test]
fn a_torn_tail_is_dropped_and_the_rest_survives() {
    let mut disk = Disk::open(config(), Vec::new());
    disk.put(1, b"aaaaaaaaaaaaaaaa");
    disk.put(2, b"bbbbbbbbbbbbbbbb");
    let good_len = disk.arena.write_offset;
    let mut file = disk.file;
    // A process killed mid-append: header of a third record, no payload.
    let mut rec = [0u8; RECORD_HEADER_BYTES as usize];
    rec[0..4].copy_from_slice(&RECORD_MAGIC.to_le_bytes());
    rec[4..8].copy_from_slice(&64u32.to_le_bytes());
    rec[8..16].copy_from_slice(&3u64.to_le_bytes());
    file.extend_from_slice(&rec);
    file.extend_from_slice(&[0u8; 10]); // short payload

    let mut disk = Disk::open(config(), file);
    assert_eq!(disk.arena.stats().recovered_torn, 1, "the torn record must be counted");
    assert_eq!(disk.arena.len(), 2, "the intact prefix must survive");
    assert_eq!(disk.arena.write_offset, good_len, "the arena rewinds to the last good record");
    let mut out = Vec::new();
    assert_eq!(disk.get(2, &mut out), Hit::Fresh);
    assert_eq!(out, b"bbbbbbbbbbbbbbbb");
    // And it accepts new writes immediately, overwriting the tear.
    disk.put(3, b"cccc");
    assert!(disk.arena.contains(3));
}

#[test]
fn a_payload_corrupted_while_open_is_reported_corrupt_not_returned() {
    let mut disk = Disk::open(config(), Vec::new());
    disk.put(7, b"trust me on this one");
    let at = disk.entry(7) as usize + RECORD_HEADER_BYTES as usize + 2;
    disk.file[at] = 0xFF;
    let mut out = Vec::new();
    assert_eq!(disk.get(7, &mut out), Hit::Corrupt, "a bad checksum must never be returned as data");
    assert!(out.is_empty());
    assert_eq!(disk.arena.stats().corrupt, 1);
    // Dropped, not retried forever.
    assert_eq!(disk.get(7, &mut out), Hit::Miss);
}

#[test]
fn a_torn_record_in_the_middle_ends_the_scan() {
    let mut disk = Disk::open(config(), Vec::new());
    disk.put(1, b"first");
    disk.put(2, b"second payload here");
    disk.put(3, b"third");
    let at = disk.entry(2) as usize + RECORD_HEADER_BYTES as usize;
    let mut file = disk.file;
    file[at..at + 4].copy_from_slice(&[0xFF, 0xFF, 0xFF, 0xFF]);

    // The rule: an invalid record ends the scan, so the damaged record and
    // everything after it are forgotten. Nothing wrong is ever returned.
    let mut disk = Disk::open(config(), file);
    assert_eq!(disk.arena.stats().recovered_torn, 1);
    assert_eq!(disk.arena.len(), 1);
    let mut out = Vec::new();
    assert_eq!(disk.get(1, &mut out), Hit::Fresh);
    assert_eq!(disk.get(2, &mut out), Hit::Miss);
    assert_eq!(disk.get(3, &mut out), Hit::Miss);
}

#[test]
fn eviction_honours_the_cap_and_counts_what_it_dropped() {
    let mut config = config();
    config.max_bytes = 200;
    let mut disk = Disk::open(config, Vec::new());
    for key in 0..20u64 {
        disk.put(key, &vec![key as u8; 24]);
        disk.arena.evict_for(0);
    }
    let stats = disk.arena.stats();
    assert!(stats.bytes <= 200, "arena grew past its cap: {} bytes", stats.bytes);
    assert!(stats.evictions > 0, "nothing was evicted at a 200 byte cap");
    // Whatever survived must still read back correctly.
    let mut out = Vec::new();
    let live: Vec<u64> = disk.arena.index.iter().map(|s| s.key).collect();
    for key in live {
        assert_eq!(disk.get(key, &mut out), Hit::Fresh);
        assert_eq!(out.len(), 24);
    }
}

#[test]
fn compaction_shrinks_the_file_and_keeps_the_live_entries() {
    let mut disk = Disk::open(config(), Vec::new());
    for round in 0..5u64 {
        for key in 0..4u64 {
            disk.put(key, &vec![(round * 10 + key) as u8; 64]);
        }
    }
    let before_file_len = disk.file.len();
    assert!(disk.arena.stats().garbage_bytes > 0, "garbage should have accumulated");
    disk.compact();
    assert!(disk.file.len() < before_file_len, "compaction did not shrink the file");
    let after = disk.arena.stats();
    assert_eq!(after.entries, 4, "only the newest payload per key survives");
    assert_eq!(after.bytes, 4 * RECORD_HEADER_BYTES + 4 * 64);
    let mut out = Vec::new();
    assert_eq!(disk.get(2, &mut out), Hit::Fresh);
    assert_eq!(out[0], (4 * 10 + 2) as u8, "the newest payload must win");
    // And the compacted file reopens as it was installed.
    let mut disk = Disk::open(config(), disk.file);
    assert_eq!(disk.arena.len(), 4);
    assert_eq!(disk.get(3, &mut out), Hit::Fresh);
    assert_eq!(out[0], 43);
}

#[test]
fn deleting_the_directory_costs_speed_and_nothing_else() {
    let mut disk = Disk::open(config(), Vec::new());
    disk.put(1, b"payload");
    let mut disk = Disk::open(config(), Vec::new());
    assert!(disk.arena.is_empty(), "a deleted cache must come back cold, not broken");
    let mut out = Vec::new();
    assert_eq!(disk.get(1, &mut out), Hit::Miss);
    // And it is usable immediately.
    disk.put(1, b"payload again");
    assert_eq!(disk.get(1, &mut out), Hit::Fresh);
    assert_eq!(out, b"payload again");
}

#[test]
fn a_foreign_file_is_replaced_rather_than_trusted() {
    let disk = Disk::open(config(), b"not an arena at all, just text".to_vec());
    assert!(disk.arena.is_empty());
    assert_eq!(disk.arena.stats().corrupt, 1);
}

#[test]
fn default_spill_dir_honours_the_environment() {
    let some = |s: &str| Some(s.to_string());
    let join = |parts: Vec<String>| parts.join("/");
    assert_eq!(
        join(default_spill_dir(some("C:\\reconl-test-spill"), some("l"), some("c"), some("h"))),
        "C:\\reconl-test-spill"
    );
    assert_eq!(join(default_spill_dir(None, some("l"), None, None)), "l/ReconL/cache");
    assert_eq!(join(default_spill_dir(some(""), None, some("c"), None)), "c/reconl");
    assert_eq!(join(default_spill_dir(None, None, None, some("h"))), "h/.cache/reconl");
    assert_eq!(join(default_spill_dir(None, None, None, None)), ".reconl-spill");
}

#[test]
fn a_record_larger_than_the_cap_is_refused() {
    let mut config = config();
    config.max_bytes = 200;
    let mut disk = Disk::open(config, Vec::new());
    disk.put(1, &[7; 100]);
    let before = disk.arena.stats().bytes;
    let err = match disk.arena.put(2, &[8; 300]) {
        Err(e) => e,
        Ok(_) => panic!("300 bytes do not fit under a cap of 200"),
    };
    assert_eq!(err.code, Code::BudgetExceeded);
    assert_eq!(err.message, "the payload does not fit under the arena's cap");
    assert_eq!(disk.arena.stats().bytes, before, "a refusal evicts nothing");
    // What just fits takes the whole arena.
    assert_eq!(disk.put(3, &[9; 176]), 200);
    assert_eq!(disk.arena.stats().bytes, 200);
    assert!(!disk.arena.contains(1) && disk.arena.contains(3));
    for (key, len) in [(4u64, 1usize), (5, 176), (5, 30), (6, 100), (4, 90)] {
        disk.put(key, &vec![1; len]);
        assert!(disk.arena.stats().bytes <= 200);
    }
}

#[test]
fn a_file_keeps_the_seed_it_was_made_with() {
    let mut disk = Disk::open(config(), Vec::new());
    disk.put(1, b"seeded");
    let mut other = config();
    other.seed = 99;
    let mut disk = Disk::open(other, disk.file);
    disk.put(2, b"later");
    let mut out = vec![1, 2, 3];
    assert_eq!(disk.get(1, &mut out), Hit::Fresh);
    assert_eq!(out, b"seeded");
    assert_eq!(disk.get(7, &mut out), Hit::Miss);
    assert!(out.is_empty());
    let mut disk = Disk::open(config(), disk.file);
    assert_eq!(disk.arena.len(), 2, "every checksum of the file has the one seed");
    assert_eq!(disk.get(2, &mut out), Hit::Fresh);
}

#[test]
fn every_held_key_reads_back_as_it_was_last_put() {
    let mut config = config();
    config.max_bytes = 300;
    let mut disk = Disk::open(config, Vec::new());
    let mut last: Vec<Option<Vec<u8>>> = vec![None; 8];
    let mut out = Vec::new();
    for step in 0..60u64 {
        let key = (step * 5) % 8;
        match step % 6 {
            0 | 1 | 2 | 3 => {
                let payload = vec![step as u8; 10 + (step % 7) as usize];
                disk.put(key, &payload);
                last[key as usize] = Some(payload);
            }
            4 => {
                // A write that fails half way leaves a torn tail behind.
                let pending = disk.arena.put(key, b"never arrives").unwrap();
                let at = pending.record.offset as usize;
                disk.file.truncate(at);
                disk.file.extend_from_slice(&pending.bytes[..7]);
                let errors = disk.arena.stats().errors;
                let e = disk.arena.commit(&pending, false).unwrap_err();
                assert_eq!(e.message, "spill write failed");
                assert_eq!(disk.arena.stats().errors, errors + 1);
            }
            _ => {
                if disk.arena.stats().garbage_bytes > 0 {
                    disk.compact();
                }
            }
        }
        assert!(disk.arena.stats().bytes <= 300);
        let live: Vec<u64> = disk.arena.index.iter().map(|s| s.key).collect();
        for k in live {
            assert_eq!(disk.get(k, &mut out), Hit::Fresh, "key {k} at step {step}");
            assert_eq!(Some(&out), last[k as usize].as_ref());
        }
        let file = disk.file.clone();
        let mut again = Disk::open(self::config(), file);
        let live: Vec<u64> = disk.arena.index.iter().map(|s| s.key).collect();
        for k in live {
            assert_eq!(again.get(k, &mut out), Hit::Fresh);
            assert_eq!(Some(&out), last[k as usize].as_ref());
        }
    }
}

#[test]
fn a_corrupt_read_forgets_one_key() {
    let mut disk = Disk::open(config(), Vec::new());
    disk.put(1, b"one");
    disk.put(2, b"two");
    let mut out = vec![9];
    assert_eq!(disk.arena.get(1, &mut out), Lookup::Read(disk.entry(1) + RECORD_HEADER_BYTES, 3));
    assert_eq!(disk.arena.finish_get(1, None, &mut out), Hit::Corrupt);
    assert!(out.is_empty());
    assert_eq!(disk.get(1, &mut out), Hit::Miss);
    assert_eq!(disk.get(2, &mut out), Hit::Fresh);
    assert_eq!(out, b"two");
    let stats = disk.arena.stats();
    assert_eq!((stats.corrupt, stats.misses, stats.hits), (1, 1, 1));
}

#[test]
fn a_failed_compaction_says_where_it_failed() {
    let mut disk = Disk::open(config(), Vec::new());
    disk.put(1, b"one");
    for (fault, said) in [
        (CompactFault::Create, "could not create the compaction file"),
        (CompactFault::Header, "compaction write failed"),
        (CompactFault::Sync, "compaction sync failed"),
        (CompactFault::Rotate, "could not rotate the arena"),
        (CompactFault::Install, "could not install the compacted arena"),
        (CompactFault::Reopen, "could not reopen the arena"),
    ] {
        let e = disk.arena.compact_failed(fault);
        assert_eq!(e.code, Code::Io);
        assert_eq!(e.message, said);
        assert_eq!(disk.arena.stats().errors, 0);
    }
    assert_eq!(disk.arena.compact_failed(CompactFault::Record).message, "compaction write failed");
    assert_eq!(disk.arena.stats().errors, 1);
    let mut out = Vec::new();
    assert_eq!(disk.get(1, &mut out), Hit::Fresh);
}

#[test]
fn headroom_is_refused_before_a_counter_overflows() {
    let mut disk = Disk::open(config(), Vec::new());
    assert!(disk.arena.headroom(1 << 20));
    assert!(!disk.arena.headroom(u64::MAX), "the file already has a header");
    disk.arena.clock = u64::MAX;
    assert!(!disk.arena.headroom(0));
}

#[test]
fn a_refused_reservation_says_why() {
    let mut wide: HostVec<u64> = HostVec::new();
    assert_eq!(wide.try_reserve(usize::MAX).unwrap_err().message, "capacity overflow");
    let over = isize::MAX as usize / 8 + 1;
    let e = wide.try_reserve(over).unwrap_err();
    assert_eq!((e.code, e.message.as_str()), (Code::OutOfMemory, "capacity overflow"));
    // What a vector can be and no machine has is the allocator's to refuse.
    let mut bytes: HostVec<u8> = HostVec::new();
    let e = bytes.try_reserve(isize::MAX as usize).unwrap_err();
    assert_eq!((e.code, e.message.as_str()), (Code::OutOfMemory, "the host allocator refused"));
    assert_eq!(bytes.capacity(), 0);
    bytes.try_reserve(16).unwrap();
    assert_eq!((bytes.capacity(), bytes.bytes()), (16, 16));
}
