//! Decoding image bytes into an RGBA8 bitmap, and making the transparency
//! key colour transparent.
use vstd::prelude::*;
use crate::bitmap::{Bitmap, keyed_byte};
use crate::error::LoadError;

verus! {

/// What decoding `bytes` yields: `None` where they are no image in a
/// supported encoding, `Some(None)` where the image's pixels are not 8-bit
/// RGBA, else its width, height and raw pixel bytes.
pub uninterp spec fn decoded_rgba8(bytes: Seq<u8>) -> Option<Option<(u32, u32, Seq<u8>)>>;

/// A decoding outcome, with the pixel bytes as a sequence.
pub open spec fn outcome_view(d: Option<Option<(u32, u32, Vec<u8>)>>) -> Option<Option<(u32, u32, Seq<u8>)>> {
    match d {
        None => None,
        Some(None) => Some(None),
        Some(Some((w, h, px))) => Some(Some((w, h, px@))),
    }
}

/// Relies on image::load_from_memory, which guesses the encoding from the
/// bytes and decodes them; an RGBA8 image is taken apart into its width,
/// height and raw bytes (ImageBuffer::into_raw).
#[verifier::external_body]
fn decode_image(bytes: &Vec<u8>) -> (r: Option<Option<(u32, u32, Vec<u8>)>>)
    ensures
        outcome_view(r) == decoded_rgba8(bytes@),
{
    match image::load_from_memory(bytes.as_slice()) {
        Err(_) => None,
        Ok(image::DynamicImage::ImageRgba8(v)) => Some(Some((v.width(), v.height(), v.into_raw()))),
        Ok(_) => Some(None),
    }
}

/// The bitmap that a decoding outcome gives, with the pixels of colour
/// `key` made transparent.
pub open spec fn bitmap_spec(
    d: Option<Option<(u32, u32, Seq<u8>)>>,
    key: Option<(u8, u8, u8)>,
) -> Result<(u32, u32, Seq<u8>), LoadError> {
    match d {
        None => Err(LoadError::ImageDecodeError),
        Some(None) => Err(LoadError::UnsupportedPixelFormat),
        Some(Some((w, h, px))) => if px.len() != 4 * w * h {
            Err(LoadError::ImageDecodeError)
        } else {
            match key {
                None => Ok((w, h, px)),
                Some(k) => Ok((w, h, Seq::new(px.len(), |i: int| keyed_byte(px, k, i)))),
            }
        },
    }
}

pub open spec fn bitmap_matches(r: Result<Bitmap, LoadError>, s: Result<(u32, u32, Seq<u8>), LoadError>) -> bool {
    match r {
        Ok(b) => b.wf() && s == Ok::<(u32, u32, Seq<u8>), LoadError>((b.width, b.height, b.pixels@)),
        Err(e) => s == Err::<(u32, u32, Seq<u8>), LoadError>(e),
    }
}

/// Turns a decoding outcome into a bitmap: fails where the bytes were no
/// image, or no RGBA8 image; makes the pixels of colour `key` transparent.
pub fn bitmap_from_decoded(
    d: Option<Option<(u32, u32, Vec<u8>)>>,
    key: Option<(u8, u8, u8)>,
) -> (r: Result<Bitmap, LoadError>)
    ensures
        bitmap_matches(r, bitmap_spec(outcome_view(d), key)),
{
    match d {
        None => Err(LoadError::ImageDecodeError),
        Some(None) => Err(LoadError::UnsupportedPixelFormat),
        Some(Some((width, height, pixels))) => {
            proof {
                assert(width * height <= 0xffff_ffff * 0xffff_ffff) by (nonlinear_arith)
                    requires
                        width <= 0xffff_ffff,
                        height <= 0xffff_ffff,
                ;
                assert(4 * (width * height) == 4 * width * height) by (nonlinear_arith);
            }
            if pixels.len() as u128 != 4 * (width as u128 * height as u128) {
                return Err(LoadError::ImageDecodeError);
            }
            let mut b = Bitmap { width, height, pixels };
            match key {
                None => {},
                Some(k) => b.apply_transparency(k),
            }
            Ok(b)
        },
    }
}

/// Decodes image bytes into an RGBA8 bitmap and makes the pixels of colour
/// `key` transparent.
pub fn open_image(bytes: &Vec<u8>, key: Option<(u8, u8, u8)>) -> (r: Result<Bitmap, LoadError>)
    ensures
        bitmap_matches(r, bitmap_spec(decoded_rgba8(bytes@), key)),
{
    let d = decode_image(bytes);
    bitmap_from_decoded(d, key)
}

} // verus!
