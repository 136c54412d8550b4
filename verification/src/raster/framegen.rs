//! Frame generation: the frames *between* real ones, reprojected rather than
//! re-rendered.
//!
//! Where a pixel's content was one frame ago, and what colour a sample between
//! pixels has, is arithmetic on the cameras. What a generated frame is made of is
//! decided here.
use crate::error::{Code, Error};
use crate::raster::single;
use vstd::prelude::*;
use vstd::string::StringExecFns;

verus! {

/// One real frame, as the layer that presented it retained it.
///
/// The colour is the image the host was handed - RGBA8, tightly packed - so a
/// generated frame is warped from exactly the pixels a host saw. Depth is given as
/// bit patterns.
pub struct History<'a> {
    pub color: &'a [u8],
    pub depth: &'a [u32],
    pub width: u32,
    pub height: u32,
}

/// Is a look-ahead a fraction of one frame interval: finite and in `(0, 1]`?
pub open spec fn is_ahead(bits: u32) -> bool {
    0 < bits <= single::ONE
}

pub open spec fn ahead_text(shown: Seq<char>) -> Seq<char> {
    "the look-ahead is "@ + shown + "; it must be in (0, 1] frame intervals"@
}

/// The look-ahead's own rule, in one place. `shown` is the number in decimal.
pub fn check_ahead(bits: u32, shown: &str) -> (r: Result<(), Error>)
    ensures
        match r {
            Ok(_) => is_ahead(bits),
            Err(e) => !is_ahead(bits) && e.says(Code::InvalidArgument, ahead_text(shown@)),
        },
{
    if bits == 0 || bits > single::ONE {
        let mut m = String::from_str("the look-ahead is ");
        m.append(shown);
        m.append("; it must be in (0, 1] frame intervals");
        return Err(Error::new(Code::InvalidArgument, m.as_str()));
    }
    Ok(())
}

/// What a pixel becomes where the camera moved.
#[derive(Clone, Copy, Debug, PartialEq, Eq, Structural)]
pub enum Moved {
    /// It lay behind the previous camera: there is no place to sample.
    Behind,
    /// The colour at the place its content came from.
    Sampled(u8, u8, u8, u8),
}

impl Moved {
    pub open spec fn channel(self, k: int) -> u8 {
        match self {
            Moved::Behind => 0,
            Moved::Sampled(r, g, b, a) => if k == 0 {
                r
            } else if k == 1 {
                g
            } else if k == 2 {
                b
            } else {
                a
            },
        }
    }
}

/// Was anything drawn at a pixel? The depth clears to zero.
pub open spec fn is_drawn(depth: u32) -> bool {
    0 < depth < single::INFINITY
}

impl<'a> History<'a> {
    pub open spec fn pixels(&self) -> int {
        self.width * self.height
    }
}

/// Why a frame cannot be generated, in the order in which it is looked at.
pub open spec fn refusal(source: History, out: nat, ahead: u32, shown: Seq<char>) -> Option<
    (Code, Seq<char>),
> {
    let pixels = source.pixels();
    if source.width == 0 || source.height == 0 {
        Some((Code::InvalidArgument, "no frame to generate from"@))
    } else if source.color@.len() < pixels * 4 {
        Some((Code::InvalidArgument, "the retained frame is smaller than its own size"@))
    } else if source.depth@.len() < pixels {
        Some(
            (
                Code::NotSupported,
                "this frame has no depth to reproject; frame generation needs a depth buffer"@,
            ),
        )
    } else if out < pixels * 4 {
        Some(
            (
                Code::InvalidArgument,
                "the present buffer is too small for the generated frame"@,
            ),
        )
    } else if !is_ahead(ahead) {
        Some((Code::InvalidArgument, ahead_text(shown)))
    } else {
        None
    }
}

/// A byte of a generated frame.
pub open spec fn generated(source: History, still: bool, moved: Seq<Moved>, i: int) -> u8 {
    let p = i / 4;
    if still || !is_drawn(source.depth@[p]) || moved[p] is Behind {
        source.color@[i]
    } else {
        moved[p].channel(i % 4)
    }
}

/// The buffer after a frame was generated into it.
pub open spec fn frame_of(
    source: History,
    still: bool,
    moved: Seq<Moved>,
    out: Seq<u8>,
) -> Seq<u8> {
    Seq::new(
        out.len(),
        |i: int|
            if i < source.pixels() * 4 {
                generated(source, still, moved, i)
            } else {
                out[i]
            },
    )
}

/// Checks that a frame can be generated.
pub fn check_generate(source: &History, out: usize, ahead: u32, shown: &str) -> (r: Result<
    (),
    Error,
>)
    requires
        source.width * source.height * 4 <= usize::MAX,
    ensures
        match r {
            Ok(_) => refusal(*source, out as nat, ahead, shown@) is None,
            Err(e) => match refusal(*source, out as nat, ahead, shown@) {
                Some((code, message)) => e.says(code, message),
                None => false,
            },
        },
{
    if source.width == 0 || source.height == 0 {
        return Err(Error::new(Code::InvalidArgument, "no frame to generate from"));
    }
    assert(0 <= source.width * source.height) by (nonlinear_arith)
        requires
            0 <= source.width,
            0 <= source.height;
    assert(source.color.len() == source.color@.len() && source.depth.len() == source.depth@.len());
    let pixels: usize = (source.width as usize) * (source.height as usize);
    if source.color.len() < pixels * 4 {
        return Err(
            Error::new(Code::InvalidArgument, "the retained frame is smaller than its own size"),
        );
    }
    if source.depth.len() < pixels {
        return Err(
            Error::new(
                Code::NotSupported,
                "this frame has no depth to reproject; frame generation needs a depth buffer",
            ),
        );
    }
    if out < pixels * 4 {
        return Err(
            Error::new(
                Code::InvalidArgument,
                "the present buffer is too small for the generated frame",
            ),
        );
    }
    check_ahead(ahead, shown)
}

/// Writes a generated frame into `out`, as RGBA8.
///
/// `still` says that the two cameras draw the same image of a still scene: then
/// every pixel's content is already where it belongs, and the frame is copied to
/// the byte. Otherwise `moved` holds what each pixel becomes; a pixel at which
/// nothing was drawn is background and does not move.
pub fn generate(
    source: &History,
    still: bool,
    moved: &[Moved],
    ahead: u32,
    shown: &str,
    out: &mut [u8],
) -> (r: Result<(), Error>)
    requires
        source.width * source.height * 4 <= usize::MAX,
        !still ==> moved@.len() >= source.pixels(),
    ensures
        match r {
            Ok(_) => {
                &&& refusal(*source, old(out)@.len(), ahead, shown@) is None
                &&& final(out)@ == frame_of(*source, still, moved@, old(out)@)
                &&& forall|p: int|
                    0 <= p < source.width * source.height ==> is_pixel(
                        final(out)@.subrange(4 * p, 4 * p + 4),
                        source.color@.subrange(4 * p, 4 * p + 4),
                        #[trigger] source.depth@[p],
                        if still {
                            Moved::Behind
                        } else {
                            moved@[p]
                        },
                    )
            },
            Err(e) => {
                &&& final(out)@ == old(out)@
                &&& match refusal(*source, old(out)@.len(), ahead, shown@) {
                    Some((code, message)) => e.says(code, message),
                    None => false,
                }
            },
        },
{
    assert(out.len() == out@.len());
    match check_generate(source, out.len(), ahead, shown) {
        Ok(_) => {},
        Err(e) => {
            return Err(e);
        },
    }
    assert(0 <= source.width * source.height) by (nonlinear_arith)
        requires
            0 <= source.width,
            0 <= source.height;
    let pixels: usize = (source.width as usize) * (source.height as usize);
    let ghost before = out@;
    let mut i: usize = 0;
    while i < pixels
        invariant
            i <= pixels,
            pixels == source.pixels(),
            pixels * 4 <= out@.len(),
            pixels * 4 <= source.color@.len(),
            pixels * 4 <= usize::MAX,
            pixels <= source.depth@.len(),
            !still ==> pixels <= moved@.len(),
            out@.len() == before.len(),
            forall|k: int| 0 <= k < i * 4 ==> #[trigger] out@[k] == generated(*source, still, moved@, k),
            forall|k: int| i * 4 <= k < out@.len() ==> #[trigger] out@[k] == before[k],
        decreases pixels - i,
    {
        let at: usize = i * 4;
        let d: u32 = source.depth[i];
        let mut r: u8 = source.color[at];
        let mut g: u8 = source.color[at + 1];
        let mut b: u8 = source.color[at + 2];
        let mut a: u8 = source.color[at + 3];
        if !still && 0 < d && d < single::INFINITY {
            match moved[i] {
                Moved::Behind => {},
                Moved::Sampled(x, y, z, w) => {
                    r = x;
                    g = y;
                    b = z;
                    a = w;
                },
            }
        }
        out[at] = r;
        out[at + 1] = g;
        out[at + 2] = b;
        out[at + 3] = a;
        proof {
            assert(at / 4 == i && (at + 1) / 4 == i && (at + 2) / 4 == i && (at + 3) / 4 == i);
        }
        i += 1;
    }
    assert(out@ =~= frame_of(*source, still, moved@, before));
    proof {
        assert forall|p: int| 0 <= p < source.width * source.height implies is_pixel(
            out@.subrange(4 * p, 4 * p + 4),
            source.color@.subrange(4 * p, 4 * p + 4),
            #[trigger] source.depth@[p],
            if still {
                Moved::Behind
            } else {
                moved@[p]
            },
        ) by {
            let (now, was) = (
                out@.subrange(4 * p, 4 * p + 4),
                source.color@.subrange(4 * p, 4 * p + 4),
            );
            if !still && 0 < source.depth@[p] < 0x7f80_0000 && moved@[p] is Sampled {
                law_a_generated_pixel_is_its_own_sample(*source, moved@, before, p);
            } else {
                assert(now =~= was);
            }
        }
    }
    Ok(())
}

/// The four bytes of a generated pixel: the sample that was reprojected for it, where
/// there is one, and its own colour otherwise.
pub open spec fn is_pixel(now: Seq<u8>, was: Seq<u8>, depth: u32, moved: Moved) -> bool {
    match moved {
        Moved::Sampled(r, g, b, a) if 0 < depth < 0x7f80_0000 => now == seq![r, g, b, a],
        _ => now == was,
    }
}

/// A generated frame of a still scene is the frame itself, to the byte.
pub proof fn law_a_still_camera_generates_the_frame(
    source: History,
    moved: Seq<Moved>,
    out: Seq<u8>,
    i: int,
)
    requires
        0 <= i < source.pixels() * 4 <= out.len(),
    ensures
        frame_of(source, true, moved, out)[i] == source.color@[i],
{
}

/// Background does not move, however the camera does.
pub proof fn law_background_does_not_move(
    source: History,
    still: bool,
    moved: Seq<Moved>,
    out: Seq<u8>,
    i: int,
)
    requires
        0 <= i < source.pixels() * 4 <= out.len(),
        !is_drawn(source.depth@[i / 4]),
    ensures
        frame_of(source, still, moved, out)[i] == source.color@[i],
{
}

/// A generated pixel is the sample that was reprojected for that pixel, all four
/// bytes of it, or the frame's own colour where nothing was drawn or the place lay
/// behind the camera. No other pixel's sample has a part in it, and what follows the
/// frame in the buffer is left alone.
pub proof fn law_a_generated_pixel_is_its_own_sample(
    source: History,
    moved: Seq<Moved>,
    out: Seq<u8>,
    p: int,
)
    requires
        0 <= p < source.width * source.height,
        source.width * source.height * 4 <= out.len(),
        source.width * source.height * 4 <= source.color@.len(),
        source.width * source.height <= source.depth@.len(),
        source.width * source.height <= moved.len(),
    ensures
        ({
            let frame = frame_of(source, false, moved, out);
            let pixel = frame.subrange(4 * p, 4 * p + 4);
            let drawn = 0 < source.depth@[p] < 0x7f80_0000;
            &&& frame.len() == out.len()
            &&& drawn ==> (moved[p] matches Moved::Sampled(r, g, b, a) ==> pixel == seq![r, g, b, a])
            &&& !drawn || moved[p] is Behind ==> pixel == source.color@.subrange(4 * p, 4 * p + 4)
            &&& frame.skip(source.width * source.height * 4) == out.skip(
                source.width * source.height * 4,
            )
            &&& forall|other: Seq<Moved>|
                other.len() == moved.len() && #[trigger] other[p] == moved[p] ==> frame_of(
                    source,
                    false,
                    other,
                    out,
                ).subrange(4 * p, 4 * p + 4) == pixel
        }),
{
    let frame = frame_of(source, false, moved, out);
    let pixel = frame.subrange(4 * p, 4 * p + 4);
    let n = source.width * source.height * 4;
    assert(0 <= source.width * source.height);
    if 0 < source.depth@[p] < 0x7f80_0000 {
        match moved[p] {
            Moved::Sampled(r, g, b, a) => {
                assert(pixel =~= seq![r, g, b, a]);
            },
            Moved::Behind => {
                assert(pixel =~= source.color@.subrange(4 * p, 4 * p + 4));
            },
        }
    } else {
        assert(pixel =~= source.color@.subrange(4 * p, 4 * p + 4));
    }
    assert(frame.skip(n) =~= out.skip(n));
    assert forall|other: Seq<Moved>|
        other.len() == moved.len() && #[trigger] other[p] == moved[p] implies frame_of(
        source,
        false,
        other,
        out,
    ).subrange(4 * p, 4 * p + 4) == pixel by {
        assert(frame_of(source, false, other, out).subrange(4 * p, 4 * p + 4) =~= pixel);
    }
}

/// A frame is generated exactly when there is one, with all its colours and depths,
/// a buffer that holds it, and a look-ahead of more than nothing and no more than one
/// interval. A frame that has no depth is told apart from every other fault.
pub proof fn law_what_is_asked_of_a_generated_frame(
    source: History,
    out: nat,
    ahead: u32,
    shown: Seq<char>,
)
    ensures
        ({
            let n = source.width * source.height;
            let whole = source.width > 0 && source.height > 0 && source.color@.len() >= 4 * n;
            &&& refusal(source, out, ahead, shown) is None <==> whole && source.depth@.len() >= n
                && out >= 4 * n && 0 < ahead <= 0x3f80_0000
            &&& (refusal(source, out, ahead, shown) matches Some((code, _)) && code
                == Code::NotSupported) <==> whole && source.depth@.len() < n
        }),
{
}

/// The place after another, clamped to the image.
pub fn next_inside(x: usize, size: u32) -> (r: usize)
    requires
        size > 0,
        x < size,
    ensures
        r == if x + 1 < size {
            x + 1
        } else {
            size - 1
        },
{
    if x + 1 < size as usize {
        x + 1
    } else {
        size as usize - 1
    }
}

} // verus!
