//! The map-format entry points: decoding an image asset, and resolving a
//! path against the file that refers to it.
use vstd::prelude::*;
use crate::bitmap::Bitmap;
use crate::decode::{bitmap_matches, bitmap_spec, decoded_rgba8, open_image};
use crate::error::LoadError;

verus! {

/// What replacing the last component of the path `reference` by `path`
/// gives.
pub uninterp spec fn file_name_replaced(reference: Seq<char>, path: Seq<char>) -> Seq<char>;

/// Relies on std's PathBuf::set_file_name, which replaces the last
/// component of the path by `path`; a path built from two strings is
/// valid UTF-8 again, so `to_str` cannot fail.
#[verifier::external_body]
fn replace_file_name(reference: &str, path: &str) -> (r: String)
    ensures
        r@ == file_name_replaced(reference@, path@),
{
    let mut buf = std::path::PathBuf::from(reference);
    buf.set_file_name(path);
    buf.to_str().unwrap().to_owned()
}

/// The path `path`, given relative to the file `reference`, as a path
/// relative to where `reference` is relative to.
pub fn shift_path(reference: &str, path: &str) -> (r: String)
    ensures
        r@ == file_name_replaced(reference@, path@),
{
    replace_file_name(reference, path)
}

/// The format of tile maps, tile sets, and the RGBA8 images they use.
#[derive(Debug, Copy, Clone)]
pub struct TiledFormat;

impl TiledFormat {
    /// The name of the format.
    pub fn name(&self) -> (r: &'static str)
        ensures
            r@ == "Tile Map"@,
    {
        "Tile Map"
    }

    /// Decodes an image asset, which must be 8-bit RGBA.
    pub fn import_simple(&self, bytes: Vec<u8>) -> (r: Result<Bitmap, LoadError>)
        ensures
            bitmap_matches(r, bitmap_spec(decoded_rgba8(bytes@), None)),
    {
        open_image(&bytes, None)
    }
}

} // verus!
