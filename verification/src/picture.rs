//! Pictures for the window: decoding of image files, and previews.

use vstd::prelude::*;

verus! {

/// The picture in an image file as `image::load_from_memory` and `to_rgba8` have it: width, height
/// and RGBA8 pixels; `None` where the file is refused.
pub uninterp spec fn decoded_picture(file: Seq<u8>) -> Option<(u32, u32, Seq<u8>)>;

/// Calls `image::load_from_memory`, and `to_rgba8` on what comes out. Whether the file is accepted,
/// and what picture it holds, depends on its bytes alone. A picture has four bytes for each pixel.
#[verifier::external_body]
fn load_picture(file: &[u8]) -> (r: Option<(u32, u32, Vec<u8>)>)
    ensures
        match r {
            Some((w, h, p)) => decoded_picture(file@) == Some((w, h, p@)) && p@.len() == w * h * 4,
            None => decoded_picture(file@) is None,
        },
{
    let rgba = image::load_from_memory(file).ok()?.to_rgba8();
    Some((rgba.width(), rgba.height(), rgba.into_raw()))
}

/// Decodes an image file to RGBA8 pixels.
pub fn decode_picture(file: &[u8]) -> (r: Option<(u32, u32, Vec<u8>)>)
    ensures
        r is Some <==> decoded_picture(file@) is Some,
        r matches Some((w, h, p)) ==> decoded_picture(file@) == Some((w, h, p@)) && p@.len() == w
            * h * 4,
{
    load_picture(file)
}

/// The small picture of a video, out of what the program that makes it has written. There is none
/// if the program failed, has written nothing, or has written no picture.
pub fn probe_thumbnail(succeeded: bool, output: &[u8]) -> (r: Option<(u32, u32, Vec<u8>)>)
    ensures
        r is Some <==> succeeded && output@.len() > 0 && decoded_picture(output@) is Some,
        r matches Some((w, h, p)) ==> decoded_picture(output@) == Some((w, h, p@)) && p@.len() == w
            * h * 4,
{
    if succeeded && output.len() > 0 {
        decode_picture(output)
    } else {
        None
    }
}

/// The longest side of a preview.
pub const PREVIEW_SIDE: u32 = 320;

/// Shrinking adds up the pixels that become one, in 32 bits. The sums fit if the picture has few
/// pixels, or no side so long that too many pixels become one.
pub open spec fn can_shrink(width: int, height: int) -> bool {
    width <= 1_000_000 && height <= 1_000_000 || width * height <= 0x100_0000
}

/// What `image::DynamicImage::thumbnail` makes of an RGBA8 picture: width, height and pixels.
pub uninterp spec fn shrunk_picture(rgba: Seq<u8>, width: int, height: int, side: int) -> (
    u32,
    u32,
    Seq<u8>,
);

/// Calls `image::DynamicImage::thumbnail`, which scales a picture so that it just fits into a
/// square and keeps its aspect ratio. The result depends on the arguments alone, has at least one
/// pixel, and fits into the square.
#[verifier::external_body]
fn shrink_picture(rgba: &[u8], width: u32, height: u32, side: u32) -> (r: Option<
    (u32, u32, Vec<u8>),
>)
    requires
        rgba@.len() == width * height * 4,
        can_shrink(width as int, height as int),
        side == PREVIEW_SIDE,
    ensures
        r is Some,
        r matches Some((w, h, p)) ==> (w, h, p@) == shrunk_picture(
            rgba@,
            width as int,
            height as int,
            side as int,
        ) && 1 <= w <= side && 1 <= h <= side && p@.len() == w * h * 4,
{
    let rgba = image::RgbaImage::from_raw(width, height, rgba.to_vec())?;
    let small = image::DynamicImage::ImageRgba8(rgba).thumbnail(side, side).to_rgba8();
    Some((small.width(), small.height(), small.into_raw()))
}

/// Pixels without transparency.
pub open spec fn opaque_pixels(rgba: Seq<u8>) -> Seq<u8> {
    Seq::new(
        rgba.len(),
        |i: int|
            if i % 4 == 3 {
                255
            } else {
                rgba[i]
            },
    )
}

/// Makes the pixels of a preview opaque if those of the picture are.
pub fn finish_preview(rgba: Vec<u8>, opaque: bool) -> (r: Vec<u8>)
    ensures
        r@ == if opaque {
            opaque_pixels(rgba@)
        } else {
            rgba@
        },
{
    if !opaque {
        return rgba;
    }
    let mut out: Vec<u8> = Vec::new();
    let mut i: usize = 0;
    while i < rgba.len()
        invariant
            i <= rgba@.len(),
            out@ == opaque_pixels(rgba@).subrange(0, i as int),
        decreases rgba@.len() - i,
    {
        if i % 4 == 3 {
            out.push(255);
        } else {
            out.push(rgba[i]);
        }
        i = i + 1;
        assert(out@ =~= opaque_pixels(rgba@).subrange(0, i as int));
    }
    assert(out@ =~= opaque_pixels(rgba@));
    out
}

/// The preview of a picture: it just fits into a square of 320 pixels, and is opaque if the picture
/// has no alpha channel. There is none if the buffer does not fit the dimensions, or if the picture
/// is too large to be shrunk.
pub fn picture_preview(rgba: &[u8], width: u32, height: u32, opaque: bool) -> (r: Option<
    (u32, u32, Vec<u8>),
>)
    ensures
        r is Some <==> rgba@.len() == width * height * 4 && can_shrink(
            width as int,
            height as int,
        ),
        r matches Some((w, h, p)) ==> {
            let small = shrunk_picture(rgba@, width as int, height as int, 320);
            &&& w == small.0
            &&& h == small.1
            &&& p@ == if opaque {
                opaque_pixels(small.2)
            } else {
                small.2
            }
            &&& 1 <= w <= 320
            &&& 1 <= h <= 320
            &&& p@.len() == w * h * 4
        },
{
    assert(width * height <= 0xFFFF_FFFF * 0xFFFF_FFFF) by (nonlinear_arith)
        requires
            width <= 0xFFFF_FFFF,
            height <= 0xFFFF_FFFF,
    ;
    let pixels: u128 = width as u128 * height as u128;
    if rgba.len() as u128 != pixels * 4 {
        return None;
    }
    if (width > 1_000_000 || height > 1_000_000) && pixels > 0x100_0000 {
        return None;
    }
    match shrink_picture(rgba, width, height, PREVIEW_SIDE) {
        Some((w, h, p)) => Some((w, h, finish_preview(p, opaque))),
        None => None,
    }
}

/// The colours of RGBA8 pixels.
pub open spec fn colours(rgba: Seq<u8>) -> Seq<u8> {
    Seq::new(3 * (rgba.len() / 4), |i: int| rgba[4 * (i / 3) + i % 3])
}

/// Drops the alpha channel of RGBA8 pixels. Bytes after the last whole pixel are dropped too.
pub fn drop_alpha(rgba: &[u8]) -> (rgb: Vec<u8>)
    ensures
        rgb@ == colours(rgba@),
{
    let mut rgb: Vec<u8> = Vec::new();
    let count: usize = rgba.len() / 4;
    let mut i: usize = 0;
    while i < count
        invariant
            i <= count,
            count == rgba@.len() / 4,
            rgba@.len() <= usize::MAX,
            rgb@.len() == 3 * i,
            forall|k: int| 0 <= k < 3 * i ==> #[trigger] rgb@[k] == rgba@[4 * (k / 3) + k % 3],
        decreases count - i,
    {
        rgb.push(rgba[4 * i]);
        rgb.push(rgba[4 * i + 1]);
        rgb.push(rgba[4 * i + 2]);
        i = i + 1;
    }
    assert(rgb@ =~= colours(rgba@));
    rgb
}

/// Without transparency every pixel keeps its colours and is opaque; without the alpha channel the
/// colours of the pixels follow each other.
pub proof fn law_colours_kept(rgba: Seq<u8>, p: int, c: int)
    requires
        0 <= c < 3,
        0 <= p,
        4 * p + 4 <= rgba.len(),
    ensures
        opaque_pixels(rgba).len() == rgba.len(),
        opaque_pixels(rgba)[4 * p + c] == rgba[4 * p + c],
        opaque_pixels(rgba)[4 * p + 3] == 255,
        colours(rgba).len() == 3 * (rgba.len() / 4),
        colours(rgba)[3 * p + c] == rgba[4 * p + c],
{
    assert((3 * p + c) / 3 == p && (3 * p + c) % 3 == c);
}

} // verus!
