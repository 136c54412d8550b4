//! A minimal, deterministic PNG codec: just enough to write and read 8-bit RGBA
//! golden images.
//!
//! `stored` deflate blocks only. A golden frame compresses poorly and diffs
//! correctly all the same, and stored blocks are byte-exact by construction,
//! which is the property a golden test needs: reading gives back what was written
//! ([`laws::law_read_gives_back_what_was_written`]).
pub mod checksum;
pub mod laws;

use crate::bytes;
use crate::bytes::{get_be32, get_le16, lossy, push_all, push_be32, push_le16, same_bytes};
use crate::png::checksum::{adler32, crc32};
use crate::text;
use crate::text::push_dec;
use vstd::prelude::*;

verus! {

/// The eight bytes every PNG starts with.
pub open spec fn signature() -> Seq<u8> {
    seq![0x89u8, 0x50u8, 0x4Eu8, 0x47u8, 0x0Du8, 0x0Au8, 0x1Au8, 0x0Au8]
}

pub open spec fn ihdr() -> Seq<u8> {
    seq![0x49u8, 0x48u8, 0x44u8, 0x52u8]
}

pub open spec fn idat() -> Seq<u8> {
    seq![0x49u8, 0x44u8, 0x41u8, 0x54u8]
}

pub open spec fn iend() -> Seq<u8> {
    seq![0x49u8, 0x45u8, 0x4Eu8, 0x44u8]
}

/// A chunk: its length, its kind, its body, and the CRC of the last two.
pub open spec fn chunk_of(kind: Seq<u8>, body: Seq<u8>) -> Seq<u8> {
    bytes::be32(low32(body.len())) + kind + body + bytes::be32(checksum::crc_of(kind + body))
}

/// The low 32 bits of a length.
pub open spec fn low32(n: nat) -> u32 {
    (n % 0x1_0000_0000) as u32
}

/// The header body: size, 8 bits, RGBA, deflate, adaptive filters, no interlace.
pub open spec fn header_of(width: u32, height: u32) -> Seq<u8> {
    bytes::be32(width) + bytes::be32(height) + seq![8u8, 6u8, 0u8, 0u8, 0u8]
}

/// The first `rows` scanlines, each behind its filter byte (0 = None).
pub open spec fn scanlines(width: u32, rows: nat, pixels: Seq<u8>) -> Seq<u8>
    decreases rows,
{
    if rows == 0 {
        Seq::empty()
    } else {
        let stride = width as int * 4;
        scanlines(width, (rows - 1) as nat, pixels).push(0u8) + pixels.subrange(
            (rows - 1) * stride,
            (rows - 1) * stride + stride,
        )
    }
}

/// A stored deflate block: whether it is the last, its length, the length's
/// complement, and the bytes themselves.
pub open spec fn block_of(last: bool, data: Seq<u8>) -> Seq<u8> {
    seq![if last { 1u8 } else { 0u8 }] + bytes::le16(data.len() as u16) + bytes::le16(
        (65535 - data.len()) as u16,
    ) + data
}

/// Stored blocks of at most 65535 bytes each, the last one marked.
pub open spec fn blocks_of(raw: Seq<u8>) -> Seq<u8>
    decreases raw.len(),
{
    if raw.len() == 0 {
        Seq::empty()
    } else if raw.len() <= 65535 {
        block_of(true, raw)
    } else {
        block_of(false, raw.take(65535)) + blocks_of(raw.skip(65535))
    }
}

/// The zlib stream of `raw`.
pub open spec fn zlib_of(raw: Seq<u8>) -> Seq<u8> {
    seq![0x78u8, 0x01u8] + blocks_of(raw) + bytes::be32(checksum::adler_of(raw))
}

/// How long the zlib stream of `n` bytes is: they, a block head for every 65535 of
/// them, and the stream's own head and checksum.
pub open spec fn stream_len(n: int) -> int {
    n + 5 * ((n + 65534) / 65535) + 6
}

/// The image's data fits one chunk, whose length is 32 bits.
pub open spec fn fits_a_chunk(width: u32, height: u32) -> bool {
    stream_len((width * 4 + 1) * height) <= u32::MAX
}

/// The bytes of an image.
pub open spec fn png_of(width: u32, height: u32, pixels: Seq<u8>) -> Seq<u8> {
    signature() + chunk_of(ihdr(), header_of(width, height)) + chunk_of(
        idat(),
        zlib_of(scanlines(width, height as nat, pixels)),
    ) + chunk_of(iend(), Seq::empty())
}

fn chunk(out: &mut Vec<u8>, kind: &[u8], body: &[u8])
    ensures
        final(out)@ == old(out)@ + chunk_of(kind@, body@),
{
    let mut crc_input: Vec<u8> = Vec::new();
    push_all(&mut crc_input, kind);
    push_all(&mut crc_input, body);
    assert(crc_input@ =~= kind@ + body@);
    push_be32(out, (body.len() as u64 % 0x1_0000_0000) as u32);
    push_all(out, kind);
    push_all(out, body);
    push_be32(out, crc32(crc_input.as_slice()));
    assert(out@ =~= old(out)@ + chunk_of(kind@, body@));
}

/// What [`write_rgba8`] says of a buffer of the wrong size.
pub open spec fn wrong_size(width: u32, height: u32, len: nat) -> Seq<char> {
    "need "@ + text::dec((width * height * 4) as nat) + " bytes for "@ + text::dec(width as nat)
        + "x"@ + text::dec(height as nat) + " RGBA8, got "@ + text::dec(len)
}

/// Writes an 8-bit RGBA PNG. Returns the encoded bytes.
///
/// The colour profile is left unspecified on purpose: goldens are compared byte
/// for byte, so a profile would be a second source of divergence, not a fix for
/// one.
pub fn write_rgba8(width: u32, height: u32, pixels: &[u8]) -> (r: Result<Vec<u8>, String>)
    ensures
        r matches Ok(png) ==> {
            &&& width > 0
            &&& height > 0
            &&& pixels@.len() == width * height * 4
            &&& png@ == png_of(width, height, pixels@)
        },
        r matches Err(why) ==> why@ == if width == 0 || height == 0 {
            "a golden image needs non-zero dimensions"@
        } else {
            wrong_size(width, height, pixels@.len())
        },
        r is Err <==> width == 0 || height == 0 || pixels@.len() != width * height * 4,
{
    if width == 0 || height == 0 {
        return Err(String::from_str("a golden image needs non-zero dimensions"));
    }
    proof {
        lemma_area(width, height);
    }
    let expected: u128 = (width as u128) * (height as u128) * 4;
    if pixels.len() as u128 != expected {
        let mut why = String::from_str("need ");
        push_dec(&mut why, expected);
        why.append(" bytes for ");
        push_dec(&mut why, width as u128);
        why.append("x");
        push_dec(&mut why, height as u128);
        why.append(" RGBA8, got ");
        push_dec(&mut why, pixels.len() as u128);
        return Err(why);
    }
    let mut header: Vec<u8> = Vec::new();
    push_be32(&mut header, width);
    push_be32(&mut header, height);
    push_all(&mut header, &[8, 6, 0, 0, 0]);
    assert(header@ =~= header_of(width, height));

    let raw = filter_rows(width, height, pixels);
    let z = deflate_stored(raw.as_slice());

    let mut out: Vec<u8> = Vec::new();
    push_all(&mut out, &[0x89, 0x50, 0x4E, 0x47, 0x0D, 0x0A, 0x1A, 0x0A]);
    assert(out@ =~= signature());
    chunk(&mut out, &[0x49, 0x48, 0x44, 0x52], header.as_slice());
    chunk(&mut out, &[0x49, 0x44, 0x41, 0x54], z.as_slice());
    chunk(&mut out, &[0x49, 0x45, 0x4E, 0x44], &[]);
    proof {
        assert([0x49u8, 0x48u8, 0x44u8, 0x52u8]@ =~= ihdr());
        assert([0x49u8, 0x44u8, 0x41u8, 0x54u8]@ =~= idat());
        assert([0x49u8, 0x45u8, 0x4Eu8, 0x44u8]@ =~= iend());
        let none: [u8; 0] = [];
        assert(none@ =~= Seq::empty());
    }
    Ok(out)
}

proof fn lemma_area(width: u32, height: u32)
    ensures
        0 <= width * height <= 0xffff_ffff * 0xffff_ffff,
{
    assert(0 <= width * height <= 0xffff_ffff * 0xffff_ffff) by (nonlinear_arith)
        requires
            0 <= width <= 0xffff_ffff,
            0 <= height <= 0xffff_ffff;
}

/// The raw stream: one filter byte (0 = None) in front of every scanline.
fn filter_rows(width: u32, height: u32, pixels: &[u8]) -> (raw: Vec<u8>)
    requires
        width > 0,
        height > 0,
        pixels@.len() == width * height * 4,
    ensures
        raw@ == scanlines(width, height as nat, pixels@),
{
    let ghost stride = width as int * 4;
    let mut raw: Vec<u8> = Vec::new();
    let mut at: usize = 0;
    let mut y: u32 = 0;
    proof {
        assert(width * height * 4 == stride * height) by (nonlinear_arith)
            requires
                stride == width as int * 4;
        assert(stride <= stride * height) by (nonlinear_arith)
            requires
                height > 0,
                stride >= 0;
        assert(pixels.len() == pixels@.len());
    }
    let step: usize = (width as usize) * 4;
    while y < height
        invariant
            y <= height,
            step == stride,
            stride == width as int * 4,
            pixels@.len() == stride * height,
            at == y * stride,
            raw@ == scanlines(width, y as nat, pixels@),
        decreases height - y,
    {
        proof {
            assert(y * stride + stride <= stride * height) by (nonlinear_arith)
                requires
                    y + 1 <= height,
                    stride >= 0;
            assert((y + 1) * stride == y * stride + stride) by (nonlinear_arith);
            assert(pixels.len() == pixels@.len());
        }
        raw.push(0);
        push_all(&mut raw, &pixels[at..at + step]);
        at = at + step;
        y += 1;
    }
    raw
}

/// A zlib stream of stored blocks.
fn deflate_stored(raw: &[u8]) -> (z: Vec<u8>)
    ensures
        z@ == zlib_of(raw@),
{
    let ghost all = seq![0x78u8, 0x01u8] + blocks_of(raw@);
    let mut z: Vec<u8> = Vec::new();
    z.push(0x78);
    z.push(0x01);
    let mut at: usize = 0;
    proof {
        assert(raw@.skip(0) =~= raw@);
        assert(z@ =~= seq![0x78u8, 0x01u8]);
    }
    while at < raw.len()
        invariant
            at <= raw@.len(),
            z@ + blocks_of(raw@.skip(at as int)) == all,
        decreases raw@.len() - at,
    {
        let rest: usize = raw.len() - at;
        let take: usize = if rest < 65535 {
            rest
        } else {
            65535
        };
        let last = take == rest;
        let ghost before = z@;
        let ghost data = raw@.subrange(at as int, at + take);
        z.push(
            if last {
                1
            } else {
                0
            },
        );
        push_le16(&mut z, take as u16);
        push_le16(&mut z, 65535 - take as u16);
        push_all(&mut z, &raw[at..at + take]);
        proof {
            assert(z@ =~= before + block_of(last, data));
            let tail = raw@.skip(at as int);
            if last {
                assert(tail =~= data);
                assert(raw@.skip(at + take) =~= Seq::empty());
            } else {
                assert(tail.take(65535) =~= data);
                assert(tail.skip(65535) =~= raw@.skip(at + take));
            }
            assert(z@ + blocks_of(raw@.skip(at + take)) =~= before + blocks_of(tail));
        }
        at = at + take;
    }
    assert(raw@.skip(at as int) =~= Seq::empty());
    assert(z@ =~= all);
    push_be32(&mut z, adler32(raw));
    z
}

/// What the stored blocks from `at` on hold, and where they end.
pub open spec fn blocks_at(z: Seq<u8>, at: int) -> Result<(Seq<u8>, int), Seq<char>>
    decreases z.len() - at,
{
    if at < 0 || at + 5 > z.len() {
        Err("truncated stored block"@)
    } else if z[at] & 6 != 0 {
        Err("non-stored deflate block; goldens are written uncompressed"@)
    } else if bytes::le16_at(z, at + 1) != 65535 - bytes::le16_at(z, at + 3) {
        Err("stored block length check failed"@)
    } else {
        let end = at + 5 + bytes::le16_at(z, at + 1);
        if end > z.len() {
            Err("stored block overruns the stream"@)
        } else if z[at] & 1 != 0 {
            Ok((z.subrange(at + 5, end), end))
        } else {
            match blocks_at(z, end) {
                Err(why) => Err(why),
                Ok((rest, stop)) => Ok((z.subrange(at + 5, end) + rest, stop)),
            }
        }
    }
}

/// What a zlib stream of stored blocks holds. Anything else is refused rather
/// than half-decoded. The trailing Adler-32 is checked when it is there.
pub open spec fn inflated(z: Seq<u8>) -> Result<Seq<u8>, Seq<char>> {
    if z.len() < 6 {
        Err("zlib stream too short"@)
    } else if z[0] & 0x0F != 8 {
        Err("not a deflate stream"@)
    } else if (z[0] * 256 + z[1]) % 31 != 0 {
        Err("zlib header check failed"@)
    } else {
        match blocks_at(z, 2) {
            Err(why) => Err(why),
            Ok((raw, end)) => if end + 4 <= z.len() && bytes::be32_at(z, end) != checksum::adler_of(
                raw,
            ) {
                Err("adler32 mismatch"@)
            } else {
                Ok(raw)
            },
        }
    }
}

/// Inflates a zlib stream made only of stored blocks - what [`write_rgba8`]
/// emits.
fn inflate_stored(z: &[u8]) -> (r: Result<Vec<u8>, String>)
    ensures
        match inflated(z@) {
            Ok(raw) => r matches Ok(v) && v@ == raw,
            Err(why) => r matches Err(e) && e@ == why,
        },
{
    if z.len() < 6 {
        return Err(String::from_str("zlib stream too short"));
    }
    if z[0] & 0x0F != 8 {
        return Err(String::from_str("not a deflate stream"));
    }
    if ((z[0] as u16) * 256 + (z[1] as u16)) % 31 != 0 {
        return Err(String::from_str("zlib header check failed"));
    }
    let mut at: usize = 2;
    let mut out: Vec<u8> = Vec::new();
    let mut done = false;
    proof {
        match blocks_at(z@, 2) {
            Ok((rest, stop)) => {
                assert(out@ + rest =~= rest);
            },
            Err(_) => {},
        }
    }
    while !done
        invariant
            z@.len() >= 6,
            z@[0] & 0x0F == 8,
            (z@[0] * 256 + z@[1]) % 31 == 0,
            at <= z@.len(),
            !done ==> match blocks_at(z@, at as int) {
                Ok((rest, stop)) => blocks_at(z@, 2) == Ok::<(Seq<u8>, int), Seq<char>>(
                    (out@ + rest, stop),
                ),
                Err(why) => blocks_at(z@, 2) == Err::<(Seq<u8>, int), Seq<char>>(why),
            },
            done ==> blocks_at(z@, 2) == Ok::<(Seq<u8>, int), Seq<char>>((out@, at as int)),
        decreases z@.len() - at + if done { 0int } else { 1int },
    {
        if z.len() - at < 5 {
            return Err(String::from_str("truncated stored block"));
        }
        let header: u8 = z[at];
        if header & 0x06 != 0 {
            return Err(
                String::from_str("non-stored deflate block; goldens are written uncompressed"),
            );
        }
        let len: u16 = get_le16(z, at + 1);
        let nlen: u16 = get_le16(z, at + 3);
        if len != 65535 - nlen {
            return Err(String::from_str("stored block length check failed"));
        }
        if z.len() - (at + 5) < len as usize {
            return Err(String::from_str("stored block overruns the stream"));
        }
        let end: usize = at + 5 + len as usize;
        let ghost before = out@;
        push_all(&mut out, &z[at + 5..end]);
        proof {
            let data = z@.subrange(at + 5, end as int);
            assert(out@ =~= before + data);
            match blocks_at(z@, end as int) {
                Ok((rest, stop)) => {
                    assert(before + (data + rest) =~= out@ + rest);
                },
                Err(_) => {},
            }
        }
        at = end;
        if header & 1 != 0 {
            done = true;
        }
    }
    if z.len() - at >= 4 {
        let want: u32 = get_be32(z, at);
        let got: u32 = adler32(out.as_slice());
        if want != got {
            return Err(String::from_str("adler32 mismatch"));
        }
    }
    Ok(out)
}

/// What the chunks of a file say: the size, and the image data.
struct Chunks {
    width: u32,
    height: u32,
    data: Vec<u8>,
}

/// What a header chunk says.
pub open spec fn header_at(body: Seq<u8>) -> Result<(u32, u32), Seq<char>> {
    if body.len() != 13 {
        Err("IHDR must be 13 bytes"@)
    } else if body[8] != 8 || body[9] != 6 {
        Err(
            "only 8-bit RGBA goldens are supported (depth "@ + text::dec(body[8] as nat)
                + ", colour "@ + text::dec(body[9] as nat) + ")"@,
        )
    } else if body[12] != 0 {
        Err("interlaced goldens are not supported"@)
    } else {
        Ok((bytes::be32_at(body, 0), bytes::be32_at(body, 4)))
    }
}

/// What the chunks from `at` on add to a size and to image data already found.
/// The walk ends behind the last whole chunk head, or at the end chunk.
pub open spec fn chunks_from(
    file: Seq<u8>,
    at: int,
    size: (u32, u32),
    data: Seq<u8>,
) -> Result<((u32, u32), Seq<u8>), Seq<char>>
    decreases file.len() - at,
{
    if at < 0 || at + 8 > file.len() {
        Ok((size, data))
    } else {
        let end = at + 8 + bytes::be32_at(file, at);
        if end + 4 > file.len() {
            Err("truncated chunk"@)
        } else {
            let kind = file.subrange(at + 4, at + 8);
            let body = file.subrange(at + 8, end);
            if checksum::crc_of(kind + body) != bytes::be32_at(file, end) {
                Err("chunk "@ + bytes::lossy_text(kind) + " has a bad CRC"@)
            } else if kind == ihdr() {
                match header_at(body) {
                    Err(why) => Err(why),
                    Ok(size) => chunks_from(file, end + 4, size, data),
                }
            } else if kind == idat() {
                chunks_from(file, end + 4, size, data + body)
            } else if kind == iend() {
                Ok((size, data))
            } else {
                // Ancillary chunks are legal and ignored.
                chunks_from(file, end + 4, size, data)
            }
        }
    }
}

/// The first `rows` scanlines without their filter bytes, all of which must be 0.
pub open spec fn unfiltered(raw: Seq<u8>, width: u32, rows: nat) -> Result<Seq<u8>, Seq<char>>
    decreases rows,
{
    if rows == 0 {
        Ok(Seq::empty())
    } else {
        let stride = width as int * 4;
        let at = (rows - 1) * (stride + 1);
        match unfiltered(raw, width, (rows - 1) as nat) {
            Err(why) => Err(why),
            Ok(above) => if raw[at] != 0 {
                Err(
                    "filter type "@ + text::dec(raw[at] as nat) + " on row "@ + text::dec(
                        (rows - 1) as nat,
                    ) + "; goldens are written with None"@,
                )
            } else {
                Ok(above + raw.subrange(at + 1, at + 1 + stride))
            },
        }
    }
}

/// The image a file holds: its size and its pixels, or why there is none.
pub open spec fn image_in(file: Seq<u8>) -> Result<((u32, u32), Seq<u8>), Seq<char>> {
    if file.len() < 8 || file.take(8) != signature() {
        Err("not a PNG (bad signature)"@)
    } else {
        match chunks_from(file, 8, (0, 0), Seq::empty()) {
            Err(why) => Err(why),
            Ok(((width, height), data)) => if width == 0 || height == 0 {
                Err("empty image"@)
            } else {
                match inflated(data) {
                    Err(why) => Err(why),
                    Ok(raw) => {
                        let expected = (width * 4 + 1) * height;
                        if raw.len() != expected {
                            Err(
                                "raw stream is "@ + text::dec(raw.len()) + " bytes, expected "@
                                    + text::dec(expected as nat),
                            )
                        } else {
                            match unfiltered(raw, width, height as nat) {
                                Err(why) => Err(why),
                                Ok(pixels) => Ok(((width, height), pixels)),
                            }
                        }
                    },
                }
            },
        }
    }
}

fn read_header(body: &[u8]) -> (r: Result<(u32, u32), String>)
    ensures
        match header_at(body@) {
            Ok(size) => r == Ok::<(u32, u32), String>(size),
            Err(why) => r matches Err(e) && e@ == why,
        },
{
    if body.len() != 13 {
        return Err(String::from_str("IHDR must be 13 bytes"));
    }
    if body[8] != 8 || body[9] != 6 {
        let mut why = String::from_str("only 8-bit RGBA goldens are supported (depth ");
        push_dec(&mut why, body[8] as u128);
        why.append(", colour ");
        push_dec(&mut why, body[9] as u128);
        why.append(")");
        return Err(why);
    }
    if body[12] != 0 {
        return Err(String::from_str("interlaced goldens are not supported"));
    }
    Ok((get_be32(body, 0), get_be32(body, 4)))
}

fn read_chunks(file: &[u8]) -> (r: Result<Chunks, String>)
    requires
        file@.len() >= 8,
    ensures
        match chunks_from(file@, 8, (0, 0), Seq::empty()) {
            Ok(((width, height), data)) => r matches Ok(c) && c.width == width && c.height == height
                && c.data@ == data,
            Err(why) => r matches Err(e) && e@ == why,
        },
{
    let mut width: u32 = 0;
    let mut height: u32 = 0;
    let mut data: Vec<u8> = Vec::new();
    let mut at: usize = 8;
    let ghost goal = chunks_from(file@, 8, (0, 0), Seq::empty());
    assert(data@ =~= Seq::empty());
    while file.len() - at >= 8
        invariant
            8 <= at <= file@.len(),
            chunks_from(file@, at as int, (width, height), data@) == goal,
            goal == chunks_from(file@, 8, (0, 0), Seq::empty()),
        decreases file@.len() - at,
    {
        let len: u32 = get_be32(file, at);
        let rest: usize = file.len() - at - 8;
        if rest < 4 || rest - 4 < len as usize {
            return Err(String::from_str("truncated chunk"));
        }
        let end: usize = at + 8 + len as usize;
        let kind: &[u8] = &file[at + 4..at + 8];
        let body: &[u8] = &file[at + 8..end];
        let mut crc_input: Vec<u8> = Vec::new();
        push_all(&mut crc_input, kind);
        push_all(&mut crc_input, body);
        assert(crc_input@ =~= kind@ + body@);
        if crc32(crc_input.as_slice()) != get_be32(file, end) {
            let mut why = String::from_str("chunk ");
            why.append(lossy(kind).as_str());
            why.append(" has a bad CRC");
            return Err(why);
        }
        proof {
            assert([0x49u8, 0x48u8, 0x44u8, 0x52u8]@ =~= ihdr());
            assert([0x49u8, 0x44u8, 0x41u8, 0x54u8]@ =~= idat());
            assert([0x49u8, 0x45u8, 0x4Eu8, 0x44u8]@ =~= iend());
            assert(ihdr()[1] != idat()[1] && ihdr()[1] != iend()[1] && idat()[1] != iend()[1]);
        }
        if same_bytes(kind, &[0x49, 0x48, 0x44, 0x52]) {
            match read_header(body) {
                Ok((w, h)) => {
                    width = w;
                    height = h;
                },
                Err(why) => return Err(why),
            }
        } else if same_bytes(kind, &[0x49, 0x44, 0x41, 0x54]) {
            push_all(&mut data, body);
        } else if same_bytes(kind, &[0x49, 0x45, 0x4E, 0x44]) {
            return Ok(Chunks { width, height, data });
        }
        at = end + 4;
    }
    Ok(Chunks { width, height, data })
}

/// One decoded RGBA8 image.
pub struct Image {
    pub width: u32,
    pub height: u32,
    /// RGBA8, tightly packed, top-down.
    pub pixels: Vec<u8>,
}

/// Reads an 8-bit RGBA PNG. Filter type 0 only - the kind [`write_rgba8`] writes.
pub fn read_rgba8(data: &[u8]) -> (r: Result<Image, String>)
    ensures
        match image_in(data@) {
            Ok(((width, height), pixels)) => r matches Ok(image) && image.width == width
                && image.height == height && image.pixels@ == pixels,
            Err(why) => r matches Err(e) && e@ == why,
        },
{
    if data.len() < 8 {
        return Err(String::from_str("not a PNG (bad signature)"));
    }
    proof {
        assert([0x89u8, 0x50u8, 0x4Eu8, 0x47u8, 0x0Du8, 0x0Au8, 0x1Au8, 0x0Au8]@ =~= signature());
        assert(data@.subrange(0, 8) =~= data@.take(8));
    }
    if !same_bytes(&data[0..8], &[0x89, 0x50, 0x4E, 0x47, 0x0D, 0x0A, 0x1A, 0x0A]) {
        return Err(String::from_str("not a PNG (bad signature)"));
    }
    let chunks = match read_chunks(data) {
        Ok(chunks) => chunks,
        Err(why) => return Err(why),
    };
    let (width, height): (u32, u32) = (chunks.width, chunks.height);
    if width == 0 || height == 0 {
        return Err(String::from_str("empty image"));
    }
    let raw = match inflate_stored(chunks.data.as_slice()) {
        Ok(raw) => raw,
        Err(why) => return Err(why),
    };
    proof {
        lemma_area(width, height);
        assert((width * 4 + 1) * height == width * height * 4 + height) by (nonlinear_arith);
    }
    let expected: u128 = ((width as u128) * 4 + 1) * (height as u128);
    if raw.len() as u128 != expected {
        let mut why = String::from_str("raw stream is ");
        push_dec(&mut why, raw.len() as u128);
        why.append(" bytes, expected ");
        push_dec(&mut why, expected);
        return Err(why);
    }
    match unfilter_rows(width, height, raw.as_slice()) {
        Ok(pixels) => Ok(Image { width, height, pixels }),
        Err(why) => Err(why),
    }
}

/// Takes the filter bytes out again.
fn unfilter_rows(width: u32, height: u32, raw: &[u8]) -> (r: Result<Vec<u8>, String>)
    requires
        width > 0,
        height > 0,
        raw@.len() == (width * 4 + 1) * height,
    ensures
        match unfiltered(raw@, width, height as nat) {
            Ok(pixels) => r matches Ok(v) && v@ == pixels,
            Err(why) => r matches Err(e) && e@ == why,
        },
{
    let ghost line = width as int * 4 + 1;
    proof {
        assert(line <= line * height) by (nonlinear_arith)
            requires
                height > 0,
                line >= 0;
        assert(raw.len() == raw@.len());
    }
    let step: usize = (width as usize) * 4;
    let mut pixels: Vec<u8> = Vec::new();
    let mut at: usize = 0;
    let mut y: u32 = 0;
    while y < height
        invariant
            y <= height,
            line == width as int * 4 + 1,
            step == line - 1,
            raw@.len() == line * height,
            at == y * line,
            unfiltered(raw@, width, y as nat) == Ok::<Seq<u8>, Seq<char>>(pixels@),
        decreases height - y,
    {
        proof {
            assert(y * line + line <= line * height) by (nonlinear_arith)
                requires
                    y + 1 <= height,
                    line >= 0;
            assert((y + 1) * line == y * line + line) by (nonlinear_arith);
            assert(raw.len() == raw@.len());
        }
        let filter: u8 = raw[at];
        if filter != 0 {
            let mut why = String::from_str("filter type ");
            push_dec(&mut why, filter as u128);
            why.append(" on row ");
            push_dec(&mut why, y as u128);
            why.append("; goldens are written with None");
            proof {
                lemma_first_bad_row(raw@, width, (y + 1) as nat, height as nat);
            }
            return Err(why);
        }
        push_all(&mut pixels, &raw[at + 1..at + 1 + step]);
        at = at + step + 1;
        y += 1;
    }
    Ok(pixels)
}

/// A bad row is reported however many rows follow it.
proof fn lemma_first_bad_row(raw: Seq<u8>, width: u32, row: nat, rows: nat)
    requires
        row <= rows,
        unfiltered(raw, width, row) is Err,
    ensures
        unfiltered(raw, width, rows) == unfiltered(raw, width, row),
    decreases rows,
{
    if row < rows {
        lemma_first_bad_row(raw, width, row, (rows - 1) as nat);
    }
}

} // verus!
