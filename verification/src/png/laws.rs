//! What the codec as a whole promises.
use crate::bytes;
use crate::png;
use crate::png::checksum;
use vstd::prelude::*;

verus! {

/// A chunk stands at `at`.
pub open spec fn chunk_stands(file: Seq<u8>, at: int, kind: Seq<u8>, body: Seq<u8>) -> bool {
    &&& 0 <= at
    &&& at + 12 + body.len() <= file.len()
    &&& kind.len() == 4
    &&& body.len() <= u32::MAX
    &&& file.subrange(at, at + 12 + body.len()) == png::chunk_of(kind, body)
}

/// A chunk is read as it was written.
proof fn lemma_chunk(file: Seq<u8>, at: int, kind: Seq<u8>, body: Seq<u8>)
    requires
        chunk_stands(file, at, kind, body),
    ensures
        bytes::be32_at(file, at) == body.len(),
        file.subrange(at + 4, at + 8) == kind,
        file.subrange(at + 8, at + 8 + body.len()) == body,
        bytes::be32_at(file, at + 8 + body.len() as int) == checksum::crc_of(kind + body),
{
    let n = body.len() as int;
    let c = png::chunk_of(kind, body);
    let s = file.subrange(at, at + 12 + n);
    assert(c.subrange(0, 4) =~= bytes::be32(png::low32(body.len())));
    assert(c.subrange(4, 8) =~= kind);
    assert(c.subrange(8, 8 + n) =~= body);
    assert(c.subrange(8 + n, 12 + n) =~= bytes::be32(checksum::crc_of(kind + body)));
    assert(file.subrange(at, at + 4) =~= s.subrange(0, 4));
    assert(file.subrange(at + 4, at + 8) =~= s.subrange(4, 8));
    assert(file.subrange(at + 8, at + 8 + n) =~= s.subrange(8, 8 + n));
    assert(file.subrange(at + 8 + n, at + 12 + n) =~= s.subrange(8 + n, 12 + n));
    bytes::lemma_be32(png::low32(body.len()), file, at);
    bytes::lemma_be32(checksum::crc_of(kind + body), file, at + 8 + n);
}

/// Stored blocks are read as they were written.
proof fn lemma_blocks(z: Seq<u8>, at: int, raw: Seq<u8>)
    requires
        raw.len() > 0,
        0 <= at,
        at + png::blocks_of(raw).len() <= z.len(),
        z.subrange(at, at + png::blocks_of(raw).len()) == png::blocks_of(raw),
    ensures
        png::blocks_at(z, at) == Ok::<(Seq<u8>, int), Seq<char>>(
            (raw, at + png::blocks_of(raw).len() as int),
        ),
    decreases raw.len(),
{
    let s = z.subrange(at, at + png::blocks_of(raw).len());
    assert(0u8 & 6 == 0 && 1u8 & 6 == 0 && 1u8 & 1 != 0 && 0u8 & 1 == 0) by (bit_vector);
    let last = raw.len() <= 65535;
    let data = if last {
        raw
    } else {
        raw.take(65535)
    };
    let n = data.len() as int;
    let block = png::block_of(last, data);
    assert(s.subrange(0, 5 + n) =~= block);
    assert(z.subrange(at, at + 5 + n) =~= s.subrange(0, 5 + n));
    assert(z[at] == z.subrange(at, at + 5 + n)[0]);
    assert(z.subrange(at + 1, at + 3) =~= block.subrange(1, 3)) by {
        assert(z.subrange(at + 1, at + 3) =~= z.subrange(at, at + 5 + n).subrange(1, 3));
    }
    assert(z.subrange(at + 3, at + 5) =~= block.subrange(3, 5)) by {
        assert(z.subrange(at + 3, at + 5) =~= z.subrange(at, at + 5 + n).subrange(3, 5));
    }
    assert(z.subrange(at + 5, at + 5 + n) =~= block.subrange(5, 5 + n)) by {
        assert(z.subrange(at + 5, at + 5 + n) =~= z.subrange(at, at + 5 + n).subrange(5, 5 + n));
    }
    assert(block.subrange(1, 3) =~= bytes::le16(n as u16));
    assert(block.subrange(3, 5) =~= bytes::le16((65535 - n) as u16));
    assert(block.subrange(5, 5 + n) =~= data);
    bytes::lemma_le16(n as u16, z, at + 1);
    bytes::lemma_le16((65535 - n) as u16, z, at + 3);
    if !last {
        let rest = raw.skip(65535);
        let end = at + 5 + n;
        assert(png::blocks_of(raw) == block + png::blocks_of(rest));
        assert(z.subrange(end, end + png::blocks_of(rest).len()) =~= s.subrange(
            5 + n,
            s.len() as int,
        ));
        assert(s.subrange(5 + n, s.len() as int) =~= png::blocks_of(rest));
        lemma_blocks(z, end, rest);
        assert(data + rest =~= raw);
    }
}

/// Blocks take at least the five bytes of a block head.
proof fn lemma_blocks_len(raw: Seq<u8>)
    requires
        raw.len() > 0,
    ensures
        png::blocks_of(raw).len() >= 5,
{
}

/// A zlib stream is read as it was written.
pub proof fn law_inflate_gives_back_what_was_deflated(raw: Seq<u8>)
    requires
        raw.len() > 0,
    ensures
        png::inflated(png::zlib_of(raw)) == Ok::<Seq<u8>, Seq<char>>(raw),
{
    assert(png::zlib_of(raw) + Seq::empty() =~= png::zlib_of(raw));
    lemma_inflate_in_front(raw, Seq::empty());
}

/// What follows a zlib stream does not change what it holds.
proof fn lemma_inflate_in_front(raw: Seq<u8>, tail: Seq<u8>)
    requires
        raw.len() > 0,
    ensures
        png::inflated(png::zlib_of(raw) + tail) == Ok::<Seq<u8>, Seq<char>>(raw),
{
    let b = png::blocks_of(raw);
    let sum = checksum::adler_of(raw);
    lemma_blocks_len(raw);
    lemma_stream_parts(b, sum, tail);
    lemma_stream_read(png::zlib_of(raw) + tail, raw, sum);
}

/// Where the parts of a stream stand.
proof fn lemma_stream_parts(b: Seq<u8>, sum: u32, tail: Seq<u8>)
    ensures
        ({
            let z = seq![0x78u8, 0x01u8] + b + bytes::be32(sum) + tail;
            let end = 2 + b.len() as int;
            &&& end + 4 <= z.len()
            &&& z[0] == 0x78 && z[1] == 0x01
            &&& z.subrange(2, end) == b
            &&& z.subrange(end, end + 4) == bytes::be32(sum)
        }),
{
    let z = seq![0x78u8, 0x01u8] + b + bytes::be32(sum) + tail;
    let end = 2 + b.len() as int;
    assert(z.subrange(2, end) =~= b);
    assert(z.subrange(end, end + 4) =~= bytes::be32(sum));
}

/// A stream whose parts stand is read.
proof fn lemma_stream_read(z: Seq<u8>, raw: Seq<u8>, sum: u32)
    requires
        raw.len() > 0,
        sum == checksum::adler_of(raw),
        ({
            let end = 2 + png::blocks_of(raw).len() as int;
            &&& 11 <= end + 4 <= z.len()
            &&& z[0] == 0x78 && z[1] == 0x01
            &&& z.subrange(2, end) == png::blocks_of(raw)
            &&& z.subrange(end, end + 4) == bytes::be32(sum)
        }),
    ensures
        png::inflated(z) == Ok::<Seq<u8>, Seq<char>>(raw),
{
    let end = 2 + png::blocks_of(raw).len() as int;
    assert(0x78u8 & 0x0F == 8) by (bit_vector);
    lemma_blocks(z, 2, raw);
    bytes::lemma_be32(sum, z, end);
}

proof fn lemma_scanlines_len(width: u32, rows: nat, pixels: Seq<u8>)
    requires
        rows * (width as int * 4) <= pixels.len(),
    ensures
        png::scanlines(width, rows, pixels).len() == rows * (width as int * 4 + 1),
    decreases rows,
{
    let stride = width as int * 4;
    if rows > 0 {
        assert((rows - 1) * stride + stride == rows * stride) by (nonlinear_arith);
        assert((rows - 1) * (stride + 1) + stride + 1 == rows * (stride + 1)) by (nonlinear_arith);
        assert(0 <= (rows - 1) * stride) by (nonlinear_arith)
            requires
                rows >= 1,
                stride >= 0;
        lemma_scanlines_len(width, (rows - 1) as nat, pixels);
    } else {
        assert(rows * (stride + 1) == 0) by (nonlinear_arith)
            requires
                rows == 0;
    }
}

/// Row `y` stands in the scanlines behind a filter byte of 0.
proof fn lemma_scanline(width: u32, rows: nat, pixels: Seq<u8>, y: int)
    requires
        0 <= y < rows,
        rows * (width as int * 4) <= pixels.len(),
    ensures
        ({
            let stride = width as int * 4;
            let raw = png::scanlines(width, rows, pixels);
            let at = y * (stride + 1);
            &&& 0 <= at
            &&& at + 1 + stride <= raw.len()
            &&& raw[at] == 0
            &&& raw.subrange(at + 1, at + 1 + stride) == pixels.subrange(
                y * stride,
                y * stride + stride,
            )
        }),
    decreases rows,
{
    let stride = width as int * 4;
    let raw = png::scanlines(width, rows, pixels);
    let above = png::scanlines(width, (rows - 1) as nat, pixels);
    let at = y * (stride + 1);
    assert((rows - 1) * stride + stride == rows * stride) by (nonlinear_arith);
    assert(0 <= (rows - 1) * stride) by (nonlinear_arith)
        requires
            rows >= 1,
            stride >= 0;
    lemma_scanlines_len(width, rows, pixels);
    lemma_scanlines_len(width, (rows - 1) as nat, pixels);
    assert(0 <= y * (stride + 1)) by (nonlinear_arith)
        requires
            0 <= y,
            0 <= stride;
    if y == rows - 1 {
        assert(raw.subrange(at + 1, at + 1 + stride) =~= pixels.subrange(
            y * stride,
            y * stride + stride,
        ));
    } else {
        lemma_scanline(width, (rows - 1) as nat, pixels, y);
        assert(raw.subrange(at + 1, at + 1 + stride) =~= above.subrange(at + 1, at + 1 + stride));
        assert(raw[at] == above[at]);
    }
}

proof fn lemma_unfiltered(width: u32, height: nat, pixels: Seq<u8>, rows: nat)
    requires
        rows <= height,
        pixels.len() == height * (width as int * 4),
    ensures
        0 <= rows * (width as int * 4) <= pixels.len(),
        png::unfiltered(png::scanlines(width, height, pixels), width, rows) == Ok::<
            Seq<u8>,
            Seq<char>,
        >(pixels.take(rows * (width as int * 4))),
    decreases rows,
{
    let stride = width as int * 4;
    assert(0 <= rows * stride <= height * stride) by (nonlinear_arith)
        requires
            0 <= rows <= height,
            stride >= 0;
    if rows == 0 {
        assert(rows * stride == 0) by (nonlinear_arith)
            requires
                rows == 0;
        assert(pixels.take(0) =~= Seq::empty());
    } else {
        let y = rows - 1;
        lemma_unfiltered(width, height, pixels, y as nat);
        lemma_scanline(width, height, pixels, y);
        assert(y * stride + stride == rows * stride) by (nonlinear_arith)
            requires
                y == rows - 1;
        assert(pixels.take(y * stride) + pixels.subrange(y * stride, y * stride + stride)
            =~= pixels.take(rows * stride));
    }
}

proof fn lemma_blocks_count(raw: Seq<u8>)
    ensures
        png::blocks_of(raw).len() + 6 == png::stream_len(raw.len() as int),
    decreases raw.len(),
{
    if raw.len() > 65535 {
        lemma_blocks_count(raw.skip(65535));
    }
}

/// The stream of an image is as long as its size says.
proof fn lemma_stream_fits(width: u32, height: u32, pixels: Seq<u8>)
    requires
        pixels.len() == width * height * 4,
        png::fits_a_chunk(width, height),
    ensures
        png::zlib_of(png::scanlines(width, height as nat, pixels)).len() <= u32::MAX,
{
    let stride = width as int * 4;
    assert(height * stride == width * height * 4) by (nonlinear_arith)
        requires
            stride == width as int * 4;
    lemma_scanlines_len(width, height as nat, pixels);
    assert(height * (stride + 1) == (width * 4 + 1) * height) by (nonlinear_arith)
        requires
            stride == width as int * 4;
    lemma_blocks_count(png::scanlines(width, height as nat, pixels));
}

/// The chunks of an image give its size and its stream.
proof fn lemma_chunks_of_an_image(width: u32, height: u32, pixels: Seq<u8>)
    requires
        png::zlib_of(png::scanlines(width, height as nat, pixels)).len() <= u32::MAX,
    ensures
        png::chunks_from(png::png_of(width, height, pixels), 8, (0, 0), Seq::empty()) == Ok::<
            ((u32, u32), Seq<u8>),
            Seq<char>,
        >(((width, height), png::zlib_of(png::scanlines(width, height as nat, pixels)))),
{
    let file = png::png_of(width, height, pixels);
    let z = png::zlib_of(png::scanlines(width, height as nat, pixels));
    lemma_file_layout(width, height, pixels);
    lemma_walk(file, width, height, z);
}

/// A header chunk sets the size.
proof fn lemma_step_header(file: Seq<u8>, width: u32, height: u32)
    requires
        chunk_stands(file, 8, png::ihdr(), png::header_of(width, height)),
    ensures
        png::chunks_from(file, 8, (0, 0), Seq::empty()) == png::chunks_from(
            file,
            33,
            (width, height),
            Seq::empty(),
        ),
{
    let head = png::header_of(width, height);
    lemma_chunk(file, 8, png::ihdr(), head);
    assert(head.subrange(0, 4) =~= bytes::be32(width));
    assert(head.subrange(4, 8) =~= bytes::be32(height));
    bytes::lemma_be32(width, head, 0);
    bytes::lemma_be32(height, head, 4);
}

/// A data chunk adds its body.
proof fn lemma_step_data(file: Seq<u8>, size: (u32, u32), z: Seq<u8>)
    requires
        chunk_stands(file, 33, png::idat(), z),
    ensures
        png::chunks_from(file, 33, size, Seq::empty()) == png::chunks_from(
            file,
            45 + z.len() as int,
            size,
            z,
        ),
{
    lemma_chunk(file, 33, png::idat(), z);
    assert(png::ihdr()[1] != png::idat()[1]);
    assert(Seq::<u8>::empty() + z =~= z);
}

proof fn lemma_walk(file: Seq<u8>, width: u32, height: u32, z: Seq<u8>)
    requires
        chunk_stands(file, 8, png::ihdr(), png::header_of(width, height)),
        chunk_stands(file, 33, png::idat(), z),
        chunk_stands(file, 45 + z.len() as int, png::iend(), Seq::empty()),
    ensures
        png::chunks_from(file, 8, (0, 0), Seq::empty()) == Ok::<
            ((u32, u32), Seq<u8>),
            Seq<char>,
        >(((width, height), z)),
{
    assert(png::chunks_from(file, 45 + z.len() as int, (width, height), z) == Ok::<
        ((u32, u32), Seq<u8>),
        Seq<char>,
    >(((width, height), z))) by {
        lemma_chunk(file, 45 + z.len() as int, png::iend(), Seq::empty());
        assert(png::ihdr()[1] != png::iend()[1] && png::idat()[1] != png::iend()[1]);
    }
    lemma_step_data(file, (width, height), z);
    lemma_step_header(file, width, height);
}

/// Reading gives back what was written: the size and every byte of the pixels.
/// The one limit is the format's own, that a chunk's length is 32 bits.
pub proof fn law_read_gives_back_what_was_written(width: u32, height: u32, pixels: Seq<u8>)
    requires
        width > 0,
        height > 0,
        pixels.len() == width * height * 4,
        png::fits_a_chunk(width, height),
    ensures
        png::image_in(png::png_of(width, height, pixels)) == Ok::<
            ((u32, u32), Seq<u8>),
            Seq<char>,
        >(((width, height), pixels)),
{
    lemma_stream_fits(width, height, pixels);
    lemma_file_layout(width, height, pixels);
    lemma_chunks_of_an_image(width, height, pixels);
    let z = png::zlib_of(png::scanlines(width, height as nat, pixels));
    assert(z + Seq::empty() =~= z);
    lemma_image_of_its_chunks(
        png::png_of(width, height, pixels),
        width,
        height,
        pixels,
        Seq::empty(),
    );
}

/// The chunks of a file say the size and the stream of an image, with whatever
/// follows the stream: the file holds that image.
proof fn lemma_image_of_its_chunks(
    file: Seq<u8>,
    width: u32,
    height: u32,
    pixels: Seq<u8>,
    tail: Seq<u8>,
)
    requires
        width > 0,
        height > 0,
        pixels.len() == width * height * 4,
        file.len() >= 8,
        file.take(8) == png::signature(),
        png::chunks_from(file, 8, (0, 0), Seq::empty()) == Ok::<
            ((u32, u32), Seq<u8>),
            Seq<char>,
        >(((width, height), png::zlib_of(png::scanlines(width, height as nat, pixels)) + tail)),
    ensures
        png::image_in(file) == Ok::<((u32, u32), Seq<u8>), Seq<char>>(((width, height), pixels)),
{
    let raw = png::scanlines(width, height as nat, pixels);
    let stride = width as int * 4;
    assert(height * stride == width * height * 4) by (nonlinear_arith)
        requires
            stride == width as int * 4;
    lemma_scanlines_len(width, height as nat, pixels);
    assert(height * (stride + 1) == (stride + 1) * height) by (nonlinear_arith);
    assert(height * (stride + 1) > 0) by (nonlinear_arith)
        requires
            height > 0,
            stride >= 0;
    lemma_inflate_in_front(raw, tail);
    lemma_unfiltered(width, height as nat, pixels, height as nat);
    assert(pixels.take(height * stride) =~= pixels);
}

/// Where the chunks of an image stand.
pub proof fn lemma_file_layout(width: u32, height: u32, pixels: Seq<u8>)
    requires
        png::zlib_of(png::scanlines(width, height as nat, pixels)).len() <= u32::MAX,
    ensures
        ({
            let file = png::png_of(width, height, pixels);
            let z = png::zlib_of(png::scanlines(width, height as nat, pixels));
            &&& file.len() == 57 + z.len()
            &&& file.take(8) == png::signature()
            &&& chunk_stands(file, 8, png::ihdr(), png::header_of(width, height))
            &&& chunk_stands(file, 33, png::idat(), z)
            &&& chunk_stands(file, 45 + z.len() as int, png::iend(), Seq::empty())
        }),
{
    let file = png::png_of(width, height, pixels);
    let z = png::zlib_of(png::scanlines(width, height as nat, pixels));
    let n = z.len() as int;
    let head = png::chunk_of(png::ihdr(), png::header_of(width, height));
    let body = png::chunk_of(png::idat(), z);
    let tail = png::chunk_of(png::iend(), Seq::empty());
    assert(head.len() == 25);
    assert(body.len() == 12 + n);
    assert(tail.len() == 12);
    assert(file.take(8) =~= png::signature());
    assert(file.subrange(8, 33) =~= head);
    assert(file.subrange(33, 45 + n) =~= body);
    assert(file.subrange(45 + n, 57 + n) =~= tail);
}

/// A chunk that the changed byte is not in still stands.
proof fn lemma_chunk_unharmed(
    file: Seq<u8>,
    bad: Seq<u8>,
    i: int,
    at: int,
    kind: Seq<u8>,
    body: Seq<u8>,
)
    requires
        chunk_stands(file, at, kind, body),
        checksum::differ_at(file, bad, i),
        i < at || i >= at + 12 + body.len(),
    ensures
        chunk_stands(bad, at, kind, body),
{
    let n = at + 12 + body.len();
    assert(bad.subrange(at, n) =~= file.subrange(at, n)) by {
        assert forall|k: int| 0 <= k < n - at implies bad.subrange(at, n)[k] == file.subrange(
            at,
            n,
        )[k] by {
            assert(file[at + k] == bad[at + k]);
        }
    }
}

/// A chunk whose kind, body or CRC has a changed byte is refused.
proof fn lemma_chunk_harmed(
    file: Seq<u8>,
    bad: Seq<u8>,
    i: int,
    at: int,
    kind: Seq<u8>,
    body: Seq<u8>,
    size: (u32, u32),
    data: Seq<u8>,
)
    requires
        chunk_stands(file, at, kind, body),
        checksum::differ_at(file, bad, i),
        at + 4 <= i < at + 12 + body.len(),
    ensures
        png::chunks_from(bad, at, size, data) is Err,
{
    let n = body.len() as int;
    let end = at + 8 + n;
    lemma_chunk(file, at, kind, body);
    assert(file[at] == bad[at] && file[at + 1] == bad[at + 1] && file[at + 2] == bad[at + 2]
        && file[at + 3] == bad[at + 3]);
    let before = kind + body;
    let after = bad.subrange(at + 4, at + 8) + bad.subrange(at + 8, end);
    assert forall|k: int| 0 <= k < before.len() implies before[k] == #[trigger] file[at + 4 + k] by {
        if k < 4 {
            assert(kind[k] == file.subrange(at + 4, at + 8)[k]);
        } else {
            assert(body[k - 4] == file.subrange(at + 8, end)[k - 4]);
        }
    }
    assert forall|k: int| 0 <= k < after.len() implies after[k] == #[trigger] bad[at + 4 + k] by {}
    if i < end {
        assert(checksum::differ_at(before, after, i - at - 4)) by {
            assert(before[i - at - 4] == file[at + 4 + (i - at - 4)]);
            assert(after[i - at - 4] == bad[at + 4 + (i - at - 4)]);
            assert forall|k: int| 0 <= k < before.len() && k != i - at - 4 implies before[k]
                == #[trigger] after[k] by {
                assert(file[at + 4 + k] == bad[at + 4 + k]);
            }
        }
        checksum::law_the_crc_sees_every_changed_byte(before, after, i - at - 4);
        assert(file[end] == bad[end] && file[end + 1] == bad[end + 1] && file[end + 2] == bad[end
            + 2] && file[end + 3] == bad[end + 3]);
    } else {
        assert(before =~= after) by {
            assert forall|k: int| 0 <= k < before.len() implies before[k] == after[k] by {
                assert(file[at + 4 + k] == bad[at + 4 + k]);
            }
        }
        lemma_be32_differs(file, bad, i, end);
    }
}

/// A number with a changed byte is another number.
proof fn lemma_be32_differs(file: Seq<u8>, bad: Seq<u8>, i: int, at: int)
    requires
        checksum::differ_at(file, bad, i),
        0 <= at <= i < at + 4 <= file.len(),
    ensures
        bytes::be32_at(file, at) != bytes::be32_at(bad, at),
{
    assert(i != at ==> file[at] == bad[at]);
    assert(i != at + 1 ==> file[at + 1] == bad[at + 1]);
    assert(i != at + 2 ==> file[at + 2] == bad[at + 2]);
    assert(i != at + 3 ==> file[at + 3] == bad[at + 3]);
}

/// A header of another length is refused.
proof fn lemma_header_length(file: Seq<u8>, bad: Seq<u8>, i: int, body: Seq<u8>)
    requires
        chunk_stands(file, 8, png::ihdr(), body),
        body.len() == 13,
        checksum::differ_at(file, bad, i),
        8 <= i < 12,
    ensures
        png::chunks_from(bad, 8, (0, 0), Seq::empty()) is Err,
{
    lemma_chunk(file, 8, png::ihdr(), body);
    lemma_be32_differs(file, bad, i, 8);
    assert(bad.subrange(12, 16) =~= file.subrange(12, 16)) by {
        assert(file[12] == bad[12] && file[13] == bad[13] && file[14] == bad[14] && file[15]
            == bad[15]);
    }
}

/// The last chunk has nothing behind it that could be its body.
proof fn lemma_end_length(
    file: Seq<u8>,
    bad: Seq<u8>,
    i: int,
    at: int,
    size: (u32, u32),
    z: Seq<u8>,
)
    requires
        chunk_stands(file, at, png::iend(), Seq::empty()),
        file.len() == at + 12,
        checksum::differ_at(file, bad, i),
        at <= i < at + 4,
    ensures
        png::chunks_from(bad, at, size, z) is Err,
{
    lemma_chunk(file, at, png::iend(), Seq::empty());
    lemma_be32_differs(file, bad, i, at);
}

proof fn lemma_changed_byte(
    file: Seq<u8>,
    bad: Seq<u8>,
    i: int,
    width: u32,
    height: u32,
    z: Seq<u8>,
)
    requires
        file.len() == 57 + z.len(),
        chunk_stands(file, 8, png::ihdr(), png::header_of(width, height)),
        chunk_stands(file, 33, png::idat(), z),
        chunk_stands(file, 45 + z.len() as int, png::iend(), Seq::empty()),
        checksum::differ_at(file, bad, i),
        8 <= i,
        i < 33 || i >= 37,
    ensures
        png::chunks_from(bad, 8, (0, 0), Seq::empty()) is Err,
{
    let n = z.len() as int;
    let head = png::header_of(width, height);
    let size = (width, height);
    let none = Seq::<u8>::empty();
    assert(head.len() == 13);
    if i < 12 {
        lemma_header_length(file, bad, i, head);
    } else if i < 33 {
        lemma_chunk_harmed(file, bad, i, 8, png::ihdr(), head, (0, 0), none);
    } else {
        lemma_chunk_unharmed(file, bad, i, 8, png::ihdr(), head);
        lemma_step_header(bad, width, height);
        if i < 45 + n {
            lemma_chunk_harmed(file, bad, i, 33, png::idat(), z, size, none);
        } else {
            lemma_chunk_unharmed(file, bad, i, 33, png::idat(), z);
            lemma_step_data(bad, size, z);
            if i < 49 + n {
                lemma_end_length(file, bad, i, 45 + n, size, z);
            } else {
                lemma_chunk_harmed(file, bad, i, 45 + n, png::iend(), none, size, z);
            }
        }
    }
}

/// Corruption is never decoded silently: a written image with any one byte
/// changed is refused, wherever the byte stands but in the length of the data
/// chunk, which no checksum covers.
pub proof fn law_a_changed_byte_is_never_decoded(
    width: u32,
    height: u32,
    pixels: Seq<u8>,
    bad: Seq<u8>,
    i: int,
)
    requires
        pixels.len() == width * height * 4,
        png::fits_a_chunk(width, height),
        checksum::differ_at(png::png_of(width, height, pixels), bad, i),
        i < 33 || i >= 37,
    ensures
        png::image_in(bad) is Err,
{
    lemma_stream_fits(width, height, pixels);
    let file = png::png_of(width, height, pixels);
    let z = png::zlib_of(png::scanlines(width, height as nat, pixels));
    lemma_file_layout(width, height, pixels);
    if i < 8 {
        assert(bad.take(8)[i] == bad[i]);
        assert(file.take(8)[i] == file[i]);
    } else {
        lemma_changed_byte(file, bad, i, width, height, z);
    }
}

/// A data chunk said to be longer than it is: the walk fails, or ends with the
/// stream and something behind it.
proof fn lemma_longer_data(file: Seq<u8>, bad: Seq<u8>, i: int, size: (u32, u32), z: Seq<u8>)
    requires
        file.len() == 57 + z.len(),
        chunk_stands(file, 33, png::idat(), z),
        checksum::differ_at(file, bad, i),
        33 <= i < 37,
        bad[i] > file[i],
    ensures
        png::chunks_from(bad, 33, size, Seq::empty()) is Err || exists|tail: Seq<u8>|
            png::chunks_from(bad, 33, size, Seq::empty()) == Ok::<
                ((u32, u32), Seq<u8>),
                Seq<char>,
            >((size, #[trigger] (z + tail))),
{
    let n = z.len() as int;
    lemma_chunk(file, 33, png::idat(), z);
    let longer = bytes::be32_at(bad, 33) as int;
    assert(longer > n) by {
        assert(i != 33 ==> file[33] == bad[33]);
        assert(i != 34 ==> file[34] == bad[34]);
        assert(i != 35 ==> file[35] == bad[35]);
        assert(i != 36 ==> file[36] == bad[36]);
    }
    let end = 41 + longer;
    assert(bad.subrange(37, 41) =~= file.subrange(37, 41)) by {
        assert(file[37] == bad[37] && file[38] == bad[38] && file[39] == bad[39] && file[40]
            == bad[40]);
    }
    assert(png::ihdr()[1] != png::idat()[1]);
    if end + 4 <= bad.len() {
        let body = bad.subrange(41, end);
        let tail = body.skip(n);
        assert(body =~= z + tail) by {
            assert forall|k: int| 0 <= k < n implies body[k] == z[k] by {
                assert(file[41 + k] == bad[41 + k]);
                assert(file.subrange(41, 41 + n)[k] == z[k]);
            }
        }
        assert(Seq::<u8>::empty() + body =~= body);
        let rest = png::chunks_from(bad, end + 4, size, body);
        assert(rest is Err || rest == Ok::<((u32, u32), Seq<u8>), Seq<char>>((size, z + tail)));
    }
}

/// A data chunk said to be longer than it is is refused, or read as the image that
/// was written: no pixel is another.
pub proof fn law_a_longer_data_chunk_changes_no_pixel(
    width: u32,
    height: u32,
    pixels: Seq<u8>,
    bad: Seq<u8>,
    i: int,
)
    requires
        width > 0,
        height > 0,
        pixels.len() == width * height * 4,
        png::fits_a_chunk(width, height),
        checksum::differ_at(png::png_of(width, height, pixels), bad, i),
        33 <= i < 37,
        bad[i] > png::png_of(width, height, pixels)[i],
    ensures
        png::image_in(bad) is Err || png::image_in(bad) == Ok::<((u32, u32), Seq<u8>), Seq<char>>(
            ((width, height), pixels),
        ),
{
    let file = png::png_of(width, height, pixels);
    let z = png::zlib_of(png::scanlines(width, height as nat, pixels));
    let size = (width, height);
    lemma_stream_fits(width, height, pixels);
    lemma_file_layout(width, height, pixels);
    assert(bad.take(8) =~= file.take(8)) by {
        assert forall|k: int| 0 <= k < 8 implies bad.take(8)[k] == file.take(8)[k] by {
            assert(file[k] == bad[k]);
        }
    }
    lemma_chunk_unharmed(file, bad, i, 8, png::ihdr(), png::header_of(width, height));
    lemma_step_header(bad, width, height);
    lemma_longer_data(file, bad, i, size, z);
    if png::chunks_from(bad, 33, size, Seq::empty()) is Ok {
        let tail = choose|tail: Seq<u8>|
            png::chunks_from(bad, 33, size, Seq::empty()) == Ok::<
                ((u32, u32), Seq<u8>),
                Seq<char>,
            >((size, #[trigger] (z + tail)));
        lemma_image_of_its_chunks(bad, width, height, pixels, tail);
    }
}

/// A file is laid out as the format asks: its signature, a header of thirteen bytes with
/// the sides in big-endian order, eight bits a channel and colour with alpha, the pixels
/// in one chunk, and an empty last chunk. Every chunk has its length in front of its name
/// and the CRC of its name and body behind it.
pub proof fn law_a_file_is_laid_out_as_the_format_asks(width: u32, height: u32, pixels: Seq<u8>)
    requires
        png::fits_a_chunk(width, height),
        width > 0,
        height > 0,
        pixels.len() == width * height * 4,
    ensures
        is_laid_out(
            png::png_of(width, height, pixels),
            width,
            height,
            png::zlib_of(png::scanlines(width, height as nat, pixels)),
        ),
{
    lemma_stream_fits(width, height, pixels);
    lemma_file_layout(width, height, pixels);
    lemma_layout(
        png::png_of(width, height, pixels),
        width,
        height,
        png::zlib_of(png::scanlines(width, height as nat, pixels)),
    );
}

/// The signature, the header, the stream and the end, each where it belongs.
pub open spec fn is_laid_out(file: Seq<u8>, width: u32, height: u32, body: Seq<u8>) -> bool {
    let n = body.len() as int;
    &&& file.len() == 8 + 25 + (12 + n) + 12
    &&& file.take(8) == seq![137u8, 80, 78, 71, 13, 10, 26, 10]
    &&& file.subrange(8, 16) == seq![0u8, 0, 0, 13, 73, 72, 68, 82]
    &&& file.subrange(16, 20) == bytes::be32(width)
    &&& file.subrange(20, 24) == bytes::be32(height)
    &&& file.subrange(24, 29) == seq![8u8, 6, 0, 0, 0]
    &&& file.subrange(29, 33) == bytes::be32(checksum::crc_of(file.subrange(12, 29)))
    &&& file.subrange(33, 37) == bytes::be32(n as u32)
    &&& file.subrange(37, 41) == seq![73u8, 68, 65, 84]
    &&& file.subrange(41, 41 + n) == body
    &&& file.subrange(41 + n, 45 + n) == bytes::be32(checksum::crc_of(file.subrange(37, 41 + n)))
    &&& file.subrange(45 + n, 53 + n) == seq![0u8, 0, 0, 0, 73, 69, 78, 68]
}

proof fn lemma_layout(file: Seq<u8>, width: u32, height: u32, body: Seq<u8>)
    requires
        file.len() == 57 + body.len(),
        file.take(8) == png::signature(),
        chunk_stands(file, 8, png::ihdr(), png::header_of(width, height)),
        chunk_stands(file, 33, png::idat(), body),
        chunk_stands(file, 45 + body.len() as int, png::iend(), Seq::empty()),
    ensures
        is_laid_out(file, width, height, body),
{
    let n = body.len() as int;
    let header = png::header_of(width, height);
    lemma_chunk_layout(file, 8, png::ihdr(), header);
    lemma_chunk_layout(file, 33, png::idat(), body);
    lemma_chunk_layout(file, 45 + n, png::iend(), Seq::empty());
    lemma_header_layout(file.subrange(16, 29), width, height);
    assert(png::signature() =~= seq![137u8, 80, 78, 71, 13, 10, 26, 10]);
    assert(png::idat() =~= seq![73u8, 68, 65, 84]);
    lemma_joined(file, 8, 13, png::ihdr(), seq![0u8, 0, 0, 13, 73, 72, 68, 82]);
    lemma_joined(file, 45 + n, 0, png::iend(), seq![0u8, 0, 0, 0, 73, 69, 78, 68]);
    assert(file.subrange(16, 29).subrange(0, 4) =~= file.subrange(16, 20));
    assert(file.subrange(16, 29).subrange(4, 8) =~= file.subrange(20, 24));
    assert(file.subrange(16, 29).subrange(8, 13) =~= file.subrange(24, 29));
}

/// A stream is a zlib stream: the two bytes of its header, which are a multiple of 31,
/// stored blocks, and the Adler sum of what is in them behind.
pub proof fn law_a_stream_is_a_zlib_stream(raw: Seq<u8>)
    ensures
        ({
            let z = png::zlib_of(raw);
            &&& z.len() >= 6
            &&& z[0] % 16 == 8
            &&& (z[0] * 256 + z[1]) % 31 == 0
            &&& z.skip(z.len() - 4) == bytes::be32(checksum::adler_of(raw))
            &&& 0 < raw.len() <= 65535 ==> z.subrange(2, z.len() - 4) == seq![
                1u8,
                (raw.len() % 256) as u8,
                (raw.len() / 256) as u8,
                (255 - raw.len() % 256) as u8,
                (255 - raw.len() / 256) as u8,
            ] + raw
        }),
{
    let z = png::zlib_of(raw);
    let blocks = png::blocks_of(raw);
    assert(z.skip(z.len() - 4) =~= bytes::be32(checksum::adler_of(raw)));
    assert(z.subrange(2, z.len() - 4) =~= blocks);
    if 0 < raw.len() <= 65535 {
        assert(blocks =~= seq![
            1u8,
            (raw.len() % 256) as u8,
            (raw.len() / 256) as u8,
            (255 - raw.len() % 256) as u8,
            (255 - raw.len() / 256) as u8,
        ] + raw);
    }
}

/// The raw stream is the rows from the top, each with a zero in front of it that says it
/// is not filtered.
pub proof fn law_every_row_stands_behind_its_filter(
    width: u32,
    height: u32,
    pixels: Seq<u8>,
    y: int,
)
    requires
        pixels.len() == width * height * 4,
        0 <= y < height,
    ensures
        ({
            let raw = png::scanlines(width, height as nat, pixels);
            let row = 4 * width + 1;
            &&& raw.len() == row * height
            &&& raw[row * y] == 0
            &&& raw.subrange(row * y + 1, row * y + row) == pixels.subrange(
                4 * width * y,
                4 * width * y + 4 * width,
            )
        }),
{
    let stride = width as int * 4;
    assert(height * stride == width * height * 4) by (nonlinear_arith)
        requires
            stride == width as int * 4;
    lemma_scanlines_len(width, height as nat, pixels);
    lemma_scanline(width, height as nat, pixels, y);
    assert(y * (stride + 1) == (4 * width + 1) * y && height * (stride + 1) == (4 * width + 1)
        * height && y * stride == 4 * width * y) by (nonlinear_arith)
        requires
            stride == width as int * 4;
}

proof fn lemma_header_layout(header: Seq<u8>, width: u32, height: u32)
    requires
        header == png::header_of(width, height),
    ensures
        header.subrange(0, 4) == bytes::be32(width),
        header.subrange(4, 8) == bytes::be32(height),
        header.subrange(8, 13) == seq![8u8, 6, 0, 0, 0],
{
    assert(header.subrange(0, 4) =~= bytes::be32(width));
    assert(header.subrange(4, 8) =~= bytes::be32(height));
    assert(header.subrange(8, 13) =~= seq![8u8, 6, 0, 0, 0]);
}

/// A length and a name, one behind the other.
proof fn lemma_joined(file: Seq<u8>, at: int, len: u32, kind: Seq<u8>, both: Seq<u8>)
    requires
        0 <= at,
        at + 8 <= file.len(),
        file.subrange(at, at + 4) == bytes::be32(len),
        file.subrange(at + 4, at + 8) == kind,
        both.len() == 8,
        both.subrange(0, 4) =~= bytes::be32(len),
        both.subrange(4, 8) =~= kind,
    ensures
        file.subrange(at, at + 8) == both,
{
    let (a, b) = (file.subrange(at, at + 4), file.subrange(at + 4, at + 8));
    assert(file.subrange(at, at + 8) =~= a + b);
    assert(both =~= both.subrange(0, 4) + both.subrange(4, 8));
}

/// Where the parts of a chunk stand.
proof fn lemma_chunk_layout(file: Seq<u8>, at: int, kind: Seq<u8>, body: Seq<u8>)
    requires
        0 <= at,
        kind.len() == 4,
        body.len() <= u32::MAX,
        at + 12 + body.len() <= file.len(),
        file.subrange(at, at + 12 + body.len()) == png::chunk_of(kind, body),
    ensures
        file.subrange(at, at + 4) == bytes::be32(body.len() as u32),
        file.subrange(at + 4, at + 8) == kind,
        file.subrange(at + 8, at + 8 + body.len()) == body,
        file.subrange(at + 8 + body.len(), at + 12 + body.len()) == bytes::be32(
            checksum::crc_of(file.subrange(at + 4, at + 8 + body.len())),
        ),
{
    let c = png::chunk_of(kind, body);
    let n = body.len() as int;
    assert(png::low32(body.len()) == body.len());
    assert(file.subrange(at, at + 4) =~= c.subrange(0, 4));
    assert(c.subrange(0, 4) =~= bytes::be32(body.len() as u32));
    assert(file.subrange(at + 4, at + 8) =~= c.subrange(4, 8));
    assert(c.subrange(4, 8) =~= kind);
    assert(file.subrange(at + 8, at + 8 + n) =~= c.subrange(8, 8 + n));
    assert(c.subrange(8, 8 + n) =~= body);
    assert(file.subrange(at + 4, at + 8 + n) =~= c.subrange(4, 8 + n));
    assert(c.subrange(4, 8 + n) =~= kind + body);
    assert(file.subrange(at + 8 + n, at + 12 + n) =~= c.subrange(8 + n, 12 + n));
    assert(c.subrange(8 + n, 12 + n) =~= bytes::be32(checksum::crc_of(kind + body)));
}

} // verus!
