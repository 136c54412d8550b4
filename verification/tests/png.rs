use reconl::png::{read_rgba8, write_rgba8};

#[test]
fn round_trips_a_gradient() {
    let mut px = Vec::new();
    for y in 0u32..16 {
        for x in 0u32..16 {
            px.extend_from_slice(&[x as u8 * 16, y as u8 * 16, 0x40, 0xFF]);
        }
    }
    let png = write_rgba8(16, 16, &px).unwrap();
    let img = read_rgba8(&png).unwrap();
    assert_eq!(img.width, 16);
    assert_eq!(img.height, 16);
    assert_eq!(img.pixels, px);
}

#[test]
fn round_trips_across_block_boundaries() {
    // >64 KiB of pixel data forces multiple stored blocks.
    let px = vec![0xABu8; 5_000 * 4 * 4];
    let png = write_rgba8(5_000, 4, &px).unwrap();
    let img = read_rgba8(&png).unwrap();
    assert_eq!(img.pixels, px);
}

#[test]
fn rejects_wrong_size_and_corruption() {
    assert!(write_rgba8(4, 4, &[0; 15]).is_err());
    let png = write_rgba8(2, 2, &[1, 2, 3, 4, 5, 6, 7, 8, 9, 10, 11, 12, 13, 14, 15, 16]).unwrap();
    let mut bad = png.clone();
    // Corrupt a byte inside the IDAT payload (after sig + IHDR chunk + IDAT header).
    let idat_data = 8 + 25 + 8;
    bad[idat_data] ^= 0xFF;
    // Corrupting pixel data or a chunk CRC must never decode silently.
    assert!(read_rgba8(&bad).is_err(), "corruption must not decode silently");
    let mut bad_crc = png.clone();
    let n = bad_crc.len();
    bad_crc[n - 1] ^= 0xFF; // IEND CRC
    assert!(read_rgba8(&bad_crc).is_err(), "chunk CRC must be verified");
    assert!(read_rgba8(b"not a png at all").is_err());
}

/// A byte flipped anywhere but in the length of the pixel chunk is refused.
#[test]
fn no_changed_byte_decodes() {
    let px: Vec<u8> = (0u8..36).collect();
    let png = write_rgba8(3, 3, &px).unwrap();
    for at in 0..png.len() {
        if (33..37).contains(&at) {
            continue;
        }
        for flip in [0x01u8, 0x80, 0xFF] {
            let mut bad = png.clone();
            bad[at] ^= flip;
            assert!(read_rgba8(&bad).is_err(), "byte {at} flipped by {flip:#x}");
        }
    }
}

#[test]
fn a_written_file_starts_with_the_signature_and_its_header() {
    let png = write_rgba8(1, 2, &[0; 8]).unwrap();
    assert_eq!(&png[..8], &[0x89, b'P', b'N', b'G', 0x0D, 0x0A, 0x1A, 0x0A]);
    assert_eq!(&png[8..16], &[0, 0, 0, 13, b'I', b'H', b'D', b'R']);
    assert_eq!(&png[16..24], &[0, 0, 0, 1, 0, 0, 0, 2]);
}

#[test]
fn each_refusal_names_its_cause() {
    assert_eq!(write_rgba8(1, 1, &[0; 3]).unwrap_err().is_empty(), false);
    let png = write_rgba8(1, 1, &[9, 8, 7, 6]).unwrap();
    for cut in [0usize, 4, 8, 20, 33, png.len() - 1] {
        assert!(read_rgba8(&png[..cut]).is_err(), "cut at {cut}");
    }
}

#[test]
fn a_longer_data_chunk_changes_no_pixel() {
    let px: Vec<u8> = (0u8..64).collect();
    let png = write_rgba8(4, 4, &px).unwrap();
    for i in 33..37 {
        for longer in png[i]..=255 {
            let mut bad = png.clone();
            bad[i] = longer;
            match read_rgba8(&bad) {
                Ok(image) => assert_eq!((image.width, image.height, image.pixels), (4, 4, px.clone())),
                Err(e) => assert!(longer > png[i], "the file itself is refused: {e}"),
            }
        }
    }
}
