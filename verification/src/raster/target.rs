//! What a frame is drawn into.
use crate::error::{Code, Error};
use crate::host_vec;
use crate::host_vec::HostVec;
use crate::raster::simd;
use crate::raster::single;
use vstd::prelude::*;

verus! {

/// A colour target and/or a depth target, in single precision.
///
/// Colour is RGBA; depth is reversed, with 0.0 as the clear value. Each number is
/// carried as its bit pattern.
pub struct Target {
    pub width: u32,
    pub height: u32,
    pub color: Option<HostVec<u32>>,
    pub depth: Option<HostVec<u32>>,
}

/// A clear colour, as bit patterns.
#[derive(Clone, Copy, Debug, PartialEq, Eq, Structural)]
pub struct Rgba {
    pub r: u32,
    pub g: u32,
    pub b: u32,
    pub a: u32,
}

impl Rgba {
    /// The component that stands at place `i` of a row of pixels.
    pub open spec fn at(self, i: int) -> u32 {
        if i % 4 == 0 {
            self.r
        } else if i % 4 == 1 {
            self.g
        } else if i % 4 == 2 {
            self.b
        } else {
            self.a
        }
    }
}

pub open spec fn zeros(n: int) -> Seq<u32> {
    Seq::new(n as nat, |i: int| 0u32)
}

/// A byte of a readback: the component it comes from, row by row.
pub open spec fn source_of(width: int, height: int, flip: bool, row: int, column: int) -> int {
    let from = if flip {
        height - 1 - row
    } else {
        row
    };
    from * (width * 4) + column
}

/// The bytes a readback needs: every row but the last at its pitch, and the last.
pub open spec fn readback_len(width: int, height: int, pitch: int) -> int {
    if height == 0 {
        width * 4
    } else {
        (height - 1) * pitch + width * 4
    }
}

/// The bytes after a readback: the rows at their pitch, and between them what was
/// there before.
pub open spec fn read_back(
    color: Seq<u32>,
    width: int,
    height: int,
    out: Seq<u8>,
    pitch: int,
    flip: bool,
) -> Seq<u8> {
    Seq::new(
        out.len(),
        |i: int|
            {
                let (row, column) = (i / pitch, i % pitch);
                if pitch > 0 && row < height && column < width * 4 {
                    single::byte_of(color[source_of(width, height, flip, row, column)])
                } else {
                    out[i]
                }
            },
    )
}

fn new_buffer(len: usize) -> (r: Result<HostVec<u32>, Error>)
    ensures
        match r {
            Ok(v) => v.wf() && v@ == zeros(len as int) && len * 4 <= host_vec::table_limit(),
            Err(e) => len > 0 && e.says(Code::OutOfMemory, host_vec::refusal::<u32>(len as int)),
        },
{
    broadcast use vstd::layout::layout_of_primitives;

    let mut v: HostVec<u32> = HostVec::new();
    match v.resize(len, 0) {
        Ok(()) => {
            assert(v@ =~= zeros(len as int));
            Ok(v)
        },
        Err(e) => Err(e),
    }
}

impl Target {
    pub open spec fn area(&self) -> int {
        self.width * self.height
    }

    /// Each buffer has a place for every pixel.
    pub open spec fn wf(&self) -> bool {
        &&& self.area() * 4 <= usize::MAX
        &&& self.color matches Some(c) ==> c.wf() && c@.len() == self.area() * 4
        &&& self.depth matches Some(d) ==> d.wf() && d@.len() == self.area()
    }

    /// A colour target, black and transparent.
    pub fn new_color(width: u32, height: u32) -> (r: Result<Target, Error>)
        requires
            width * height * 4 <= usize::MAX,
        ensures
            match r {
                Ok(t) => {
                    &&& t.wf()
                    &&& t.width == width && t.height == height
                    &&& t.depth is None
                    &&& t.color matches Some(c) && c@ == zeros(width * height * 4)
                    &&& width * height * 16 <= host_vec::table_limit()
                },
                Err(e) => width * height > 0 && e.says(
                    Code::OutOfMemory,
                    host_vec::refusal::<u32>(width * height * 4),
                ),
            },
    {
        let pixels: usize = pixel_count(width, height);
        match new_buffer(pixels * 4) {
            Ok(color) => Ok(Target { width, height, color: Some(color), depth: None }),
            Err(e) => Err(e),
        }
    }

    /// A depth target, at the far end.
    pub fn new_depth(width: u32, height: u32) -> (r: Result<Target, Error>)
        requires
            width * height * 4 <= usize::MAX,
        ensures
            match r {
                Ok(t) => {
                    &&& t.wf()
                    &&& t.width == width && t.height == height
                    &&& t.color is None
                    &&& t.depth matches Some(d) && d@ == zeros(width * height)
                    &&& width * height * 4 <= host_vec::table_limit()
                },
                Err(e) => width * height > 0 && e.says(
                    Code::OutOfMemory,
                    host_vec::refusal::<u32>(width * height),
                ),
            },
    {
        match new_buffer(pixel_count(width, height)) {
            Ok(depth) => Ok(Target { width, height, color: None, depth: Some(depth) }),
            Err(e) => Err(e),
        }
    }

    /// The target with a depth buffer attached.
    pub fn with_depth(self) -> (r: Result<Target, Error>)
        requires
            self.wf(),
        ensures
            match r {
                Ok(t) => {
                    &&& t.wf()
                    &&& t.width == self.width && t.height == self.height
                    &&& t.color == self.color
                    &&& t.depth matches Some(d) && d@ == zeros(self.area())
                },
                Err(e) => self.area() > 0 && e.says(
                    Code::OutOfMemory,
                    host_vec::refusal::<u32>(self.area()),
                ),
            },
    {
        match new_buffer(pixel_count(self.width, self.height)) {
            Ok(depth) => Ok(
                Target {
                    width: self.width,
                    height: self.height,
                    color: self.color,
                    depth: Some(depth),
                },
            ),
            Err(e) => Err(e),
        }
    }

    pub fn pixels(&self) -> (n: usize)
        requires
            self.wf(),
        ensures
            n == self.area(),
    {
        pixel_count(self.width, self.height)
    }

    pub fn color_slice(&self) -> (r: Option<&[u32]>)
        ensures
            match r {
                Some(s) => self.color matches Some(c) && s@ == c@,
                None => self.color is None,
            },
    {
        match &self.color {
            Some(c) => Some(c.as_slice()),
            None => None,
        }
    }

    pub fn depth_slice(&self) -> (r: Option<&[u32]>)
        ensures
            match r {
                Some(s) => self.depth matches Some(d) && s@ == d@,
                None => self.depth is None,
            },
    {
        match &self.depth {
            Some(d) => Some(d.as_slice()),
            None => None,
        }
    }

    /// Replaces one colour component.
    pub fn set_color(&mut self, index: usize, bits: u32)
        requires
            old(self).wf(),
            old(self).color matches Some(c) && index < c@.len(),
        ensures
            final(self).wf(),
            final(self).width == old(self).width && final(self).height == old(self).height,
            final(self).depth == old(self).depth,
            final(self).color matches Some(c) && c@ == old(self).color->0@.update(
                index as int,
                bits,
            ),
    {
        match self.color.take() {
            Some(mut c) => {
                c.set(index, bits);
                self.color = Some(c);
            },
            None => {},
        }
    }

    /// Clears colour, where there is any.
    pub fn clear_color(&mut self, rgba: Rgba)
        requires
            old(self).wf(),
        ensures
            final(self).wf(),
            final(self).width == old(self).width && final(self).height == old(self).height,
            final(self).depth == old(self).depth,
            match old(self).color {
                Some(c) => final(self).color matches Some(d) && d@ == Seq::new(
                    c@.len(),
                    |i: int| rgba.at(i),
                ),
                None => final(self).color is None,
            },
    {
        match self.color.take() {
            Some(mut c) => {
                let ghost before = c@;
                let n: usize = c.len();
                let mut i: usize = 0;
                while i < n
                    invariant
                        i <= n,
                        n == c@.len() == before.len(),
                        c.wf(),
                        forall|k: int| 0 <= k < i ==> #[trigger] c@[k] == rgba.at(k),
                    decreases n - i,
                {
                    let bits: u32 = if i % 4 == 0 {
                        rgba.r
                    } else if i % 4 == 1 {
                        rgba.g
                    } else if i % 4 == 2 {
                        rgba.b
                    } else {
                        rgba.a
                    };
                    c.set(i, bits);
                    i += 1;
                }
                assert(c@ =~= Seq::new(before.len(), |i: int| rgba.at(i)));
                self.color = Some(c);
            },
            None => {},
        }
    }

    /// Clears depth, where there is any.
    pub fn clear_depth(&mut self, bits: u32)
        requires
            old(self).wf(),
        ensures
            final(self).wf(),
            final(self).width == old(self).width && final(self).height == old(self).height,
            final(self).color == old(self).color,
            match old(self).depth {
                Some(c) => final(self).depth matches Some(d) && d@ == Seq::new(
                    c@.len(),
                    |i: int| bits,
                ),
                None => final(self).depth is None,
            },
    {
        match self.depth.take() {
            Some(mut d) => {
                d.fill(bits);
                self.depth = Some(d);
            },
            None => {},
        }
    }

    /// Converts colour to tightly packed RGBA8, the format that presenting to
    /// memory hands back.
    pub fn to_rgba8(&self, out: &mut [u8]) -> (r: Result<(), Error>)
        requires
            self.wf(),
            self.width * 4 <= usize::MAX,
        ensures
            self.readback_is(old(out)@, self.width * 4, false, final(out)@, r),
    {
        self.to_rgba8_rows(out, self.width as usize * 4, false)
    }

    /// What a readback makes of a buffer, and when it is refused.
    pub open spec fn readback_is(
        &self,
        before: Seq<u8>,
        pitch: int,
        flip: bool,
        after: Seq<u8>,
        r: Result<(), Error>,
    ) -> bool {
        let (w, h) = (self.width as int, self.height as int);
        match self.color {
            None => r matches Err(e) && e.says(Code::NotReady, "target has no colour buffer"@)
                && after == before,
            Some(c) => if pitch < w * 4 || before.len() < readback_len(w, h, pitch) {
                r matches Err(e) && e.says(
                    Code::InvalidArgument,
                    "readback buffer is too small"@,
                ) && after == before
            } else {
                r is Ok && after == read_back(c@, w, h, before, pitch, flip)
            },
        }
    }

    /// Converts colour into a destination with a row pitch, optionally flipped, row
    /// by row.
    ///
    /// This is the whole of how a frame becomes the host's bytes: the conversion
    /// and the presentation layout happen in one pass. `pitch` is the destination's
    /// row length in bytes and must be at least one row wide.
    pub fn to_rgba8_rows(&self, out: &mut [u8], pitch: usize, flip: bool) -> (r: Result<(), Error>)
        requires
            self.wf(),
            self.width * 4 <= usize::MAX,
        ensures
            self.readback_is(old(out)@, pitch as int, flip, final(out)@, r),
    {
        let color = match self.color_slice() {
            Some(c) => c,
            None => {
                return Err(Error::new(Code::NotReady, "target has no colour buffer"));
            },
        };
        let rows: usize = self.height as usize;
        let row_bytes: usize = self.width as usize * 4;
        if pitch < row_bytes || too_small(out.len(), rows, pitch, row_bytes) {
            assert(out.len() == out@.len());
            return Err(Error::new(Code::InvalidArgument, "readback buffer is too small"));
        }
        assert(out.len() == out@.len());
        let ghost before = out@;
        let ghost (w, h) = (self.width as int, self.height as int);
        let mut row: usize = 0;
        while row < rows
            invariant
                row <= rows,
                rows == h,
                row_bytes == w * 4,
                w == self.width && h == self.height,
                row_bytes <= pitch,
                color@.len() == (w * h) * 4,
                color@.len() <= usize::MAX,
                out@.len() == before.len(),
                before.len() <= usize::MAX,
                h > 0 ==> (h - 1) * pitch + row_bytes <= before.len(),
                forall|i: int|
                    0 <= i < out@.len() ==> #[trigger] out@[i] == if pitch > 0 && i / (pitch as int)
                        < row && i % (pitch as int) < row_bytes {
                        single::byte_of(
                            color@[source_of(w, h, flip, i / (pitch as int), i % (pitch as int))],
                        )
                    } else {
                        before[i]
                    },
            decreases rows - row,
        {
            let source: usize = if flip {
                rows - 1 - row
            } else {
                row
            };
            proof {
                let (s, p, b) = (source as int, pitch as int, row_bytes as int);
                assert(0 <= s * b && s * b + b <= (w * h) * 4) by (nonlinear_arith)
                    requires
                        0 <= s < h,
                        b == w * 4,
                        0 <= w;
                assert(row * p + b <= (h - 1) * p + b) by (nonlinear_arith)
                    requires
                        row <= h - 1,
                        0 <= p;
                assert(0 <= row * p) by (nonlinear_arith)
                    requires
                        0 <= row,
                        0 <= p;
            }
            let ghost held = out@;
            simd::convert_into(color, source * row_bytes, out, row * pitch, row_bytes);
            proof {
                assert forall|i: int| 0 <= i < out@.len() implies #[trigger] out@[i] == if pitch > 0
                    && i / (pitch as int) < row + 1 && i % (pitch as int) < row_bytes {
                    single::byte_of(
                        color@[source_of(w, h, flip, i / (pitch as int), i % (pitch as int))],
                    )
                } else {
                    before[i]
                } by {
                    lemma_place(i, row as int, pitch as int, row_bytes as int);
                    assert(out@[i] == if row * pitch <= i < row * pitch + row_bytes {
                        single::byte_of(color@[source * row_bytes + i - row * pitch])
                    } else {
                        held[i]
                    });
                }
            }
            row += 1;
        }
        assert(out@ =~= read_back(color@, w, h, before, pitch as int, flip));
        Ok(())
    }
}

/// A byte lies in the row `row` of a pitched buffer exactly where its place says.
proof fn lemma_place(i: int, row: int, pitch: int, row_bytes: int)
    requires
        0 <= i,
        0 <= row,
        0 <= row_bytes <= pitch,
    ensures
        pitch > 0 ==> ((row * pitch <= i < row * pitch + row_bytes) <==> (i / pitch == row && i
            % pitch < row_bytes)),
        pitch > 0 && i / pitch == row ==> i - row * pitch == i % pitch,
        pitch == 0 ==> !(row * pitch <= i < row * pitch + row_bytes),
{
    if pitch > 0 {
        vstd::arithmetic::div_mod::lemma_fundamental_div_mod(i, pitch);
        vstd::arithmetic::div_mod::lemma_mod_bound(i, pitch);
        assert(pitch * (i / pitch) == (i / pitch) * pitch) by (nonlinear_arith);
        if row * pitch <= i < row * pitch + row_bytes {
            vstd::arithmetic::div_mod::lemma_fundamental_div_mod_converse(
                i,
                pitch,
                row,
                i - row * pitch,
            );
        }
    } else {
        assert(row * pitch == 0) by (nonlinear_arith)
            requires
                pitch == 0;
    }
}

fn pixel_count(width: u32, height: u32) -> (n: usize)
    requires
        width * height * 4 <= usize::MAX,
    ensures
        n == width * height,
{
    assert(0 <= width * height) by (nonlinear_arith)
        requires
            0 <= width,
            0 <= height;
    (width as usize) * (height as usize)
}

/// Is a buffer too short for a readback?
fn too_small(len: usize, rows: usize, pitch: usize, row_bytes: usize) -> (r: bool)
    requires
        row_bytes % 4 == 0,
    ensures
        r == (len < readback_len(row_bytes as int / 4, rows as int, pitch as int)),
{
    let above: usize = if rows == 0 {
        0
    } else {
        rows - 1
    };
    assert(above * pitch <= u64::MAX * u64::MAX) by (nonlinear_arith)
        requires
            0 <= above <= u64::MAX,
            0 <= pitch <= u64::MAX;
    assert(0 <= above * pitch) by (nonlinear_arith)
        requires
            0 <= above,
            0 <= pitch;
    let needed: u128 = above as u128 * pitch as u128;
    if needed > usize::MAX as u128 {
        return true;
    }
    needed + row_bytes as u128 > len as u128
}

/// Two readbacks of one target, one flipped, are each other's rows in reverse.
pub proof fn law_a_flip_reverses_the_rows(
    color: Seq<u32>,
    width: int,
    height: int,
    a: Seq<u8>,
    b: Seq<u8>,
    pitch: int,
    row: int,
    column: int,
)
    requires
        0 <= row < height,
        0 <= column < width * 4,
        width * 4 <= pitch,
        readback_len(width, height, pitch) <= a.len(),
        readback_len(width, height, pitch) <= b.len(),
    ensures
        read_back(color, width, height, a, pitch, true)[row * pitch + column] == read_back(
            color,
            width,
            height,
            b,
            pitch,
            false,
        )[(height - 1 - row) * pitch + column],
{
    let other = height - 1 - row;
    lemma_row_place(row, column, width, height, pitch);
    lemma_row_place(other, column, width, height, pitch);
}

proof fn lemma_row_place(row: int, column: int, width: int, height: int, pitch: int)
    requires
        0 <= row < height,
        0 <= column < width * 4,
        width * 4 <= pitch,
    ensures
        0 <= row * pitch + column < readback_len(width, height, pitch),
        (row * pitch + column) / pitch == row,
        (row * pitch + column) % pitch == column,
{
    assert(0 <= row * pitch && row * pitch <= (height - 1) * pitch) by (nonlinear_arith)
        requires
            0 <= row <= height - 1,
            0 <= pitch;
    vstd::arithmetic::div_mod::lemma_fundamental_div_mod_converse(
        row * pitch + column,
        pitch,
        row,
        column,
    );
}

/// A readback leaves what lies between its rows as it was.
pub proof fn law_a_readback_keeps_the_gaps(
    color: Seq<u32>,
    width: int,
    height: int,
    out: Seq<u8>,
    pitch: int,
    flip: bool,
    i: int,
)
    requires
        0 <= i < out.len(),
        0 < pitch,
        i % pitch >= width * 4,
    ensures
        read_back(color, width, height, out, pitch, flip)[i] == out[i],
{
}

/// A readback is the target row by row: byte `c` of pixel `(x, row)` is channel `c` of
/// that pixel, or of the pixel in the row as far from the other end where it is
/// flipped.
pub proof fn law_a_readback_holds_every_pixel_in_its_row(
    color: Seq<u32>,
    width: int,
    height: int,
    out: Seq<u8>,
    pitch: int,
    x: int,
    row: int,
    c: int,
)
    requires
        0 <= x < width,
        0 <= row < height,
        0 <= c < 4,
        width * 4 <= pitch,
        (height - 1) * pitch + width * 4 <= out.len(),
    ensures
        read_back(color, width, height, out, pitch, false)[pitch * row + 4 * x + c]
            == single::byte_of(color[4 * (width * row + x) + c]),
        read_back(color, width, height, out, pitch, true)[pitch * row + 4 * x + c]
            == single::byte_of(color[4 * (width * (height - 1 - row) + x) + c]),
        read_back(color, width, height, out, pitch, true).len() == out.len(),
{
    let column = 4 * x + c;
    let i = pitch * row + column;
    assert(row * pitch == pitch * row) by (nonlinear_arith);
    assert(row * pitch <= (height - 1) * pitch) by (nonlinear_arith)
        requires
            row <= height - 1,
            0 <= pitch;
    assert(0 <= pitch * row) by (nonlinear_arith)
        requires
            0 <= row,
            0 <= pitch;
    vstd::arithmetic::div_mod::lemma_fundamental_div_mod_converse(i, pitch, row, column);
    assert(row * (width * 4) == 4 * (width * row)) by (nonlinear_arith);
    let from = height - 1 - row;
    assert(from * (width * 4) == 4 * (width * from)) by (nonlinear_arith);
}

/// A readback is refused exactly when a row is shorter than its pixels or the rows do
/// not fit the buffer.
pub proof fn law_a_readback_needs_room_for_its_rows(width: int, height: int, pitch: int)
    requires
        0 <= width,
        0 < height,
        width * 4 <= pitch,
    ensures
        readback_len(width, height, pitch) == pitch * height - (pitch - 4 * width),
{
    assert((height - 1) * pitch == pitch * height - pitch) by (nonlinear_arith);
}

/// A cleared pixel has the four channels of its colour in order.
pub proof fn law_a_cleared_pixel_is_its_colour(rgba: Rgba, p: int)
    ensures
        rgba.at(4 * p) == rgba.r,
        rgba.at(4 * p + 1) == rgba.g,
        rgba.at(4 * p + 2) == rgba.b,
        rgba.at(4 * p + 3) == rgba.a,
{
}

} // verus!
