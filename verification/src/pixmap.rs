//! Pixel images.

use vstd::prelude::*;
use tiny_skia::Pixmap;

verus! {

/// `tiny_skia::Pixmap`: an image of premultiplied RGBA pixels.
#[verifier::external_type_specification]
#[verifier::external_body]
pub struct ExPixmap(tiny_skia::Pixmap);

/// The bytes of an image, row by row: red, green, blue and alpha of each pixel.
pub uninterp spec fn pixels(p: Pixmap) -> Seq<u8>;

/// The width and height of an image.
pub uninterp spec fn dimensions(p: Pixmap) -> (u32, u32);

/// What `Pixmap::decode_png` makes of the bytes of a PNG file: width and height
/// with the pixels, or nothing where they are no such file.
pub uninterp spec fn decoded_png(data: Seq<u8>) -> Option<((u32, u32), Seq<u8>)>;

/// How many bytes an image takes.
pub open spec fn byte_count(w: u32, h: u32) -> int {
    w * h * 4
}

/// The greatest width of an image: a row of it takes no more than `i32::MAX`
/// bytes.
pub const MAX_WIDTH: u32 = 0x1fff_ffff;

/// `Pixmap::from_vec`, with the size made by `IntSize::from_wh`: the image with
/// these bytes. There is one exactly where neither side is 0, a row takes no
/// more than `i32::MAX` bytes, and the bytes are as many as the size asks for.
#[verifier::external_body]
pub(crate) fn from_vec(data: Vec<u8>, w: u32, h: u32) -> (r: Option<Pixmap>)
    ensures
        r is Some == (w > 0 && w <= MAX_WIDTH && h > 0 && data@.len() == byte_count(w, h)),
        r matches Some(p) ==> pixels(p) == data@ && dimensions(p) == (w, h),
{
    Pixmap::from_vec(data, tiny_skia::IntSize::from_wh(w, h)?)
}

/// `Pixmap::take`: the bytes of the image.
#[verifier::external_body]
pub(crate) fn take(p: Pixmap) -> (r: Vec<u8>)
    ensures
        r@ == pixels(p),
{
    p.take()
}

/// `Pixmap::width`.
#[verifier::external_body]
pub(crate) fn width(p: &Pixmap) -> (r: u32)
    ensures
        r == dimensions(*p).0,
{
    p.width()
}

/// `Pixmap::height`.
#[verifier::external_body]
pub(crate) fn height(p: &Pixmap) -> (r: u32)
    ensures
        r == dimensions(*p).1,
{
    p.height()
}

/// `Pixmap::decode_png`. What it makes of the bytes depends on them alone.
#[verifier::external_body]
pub(crate) fn decode_png(data: &[u8]) -> (r: Option<Pixmap>)
    ensures
        match r {
            Some(p) => decoded_png(data@) == Some((dimensions(p), pixels(p))),
            None => decoded_png(data@) is None,
        },
{
    Pixmap::decode_png(data).ok()
}

} // verus!
