//! The ways a load can fail. Every one of them ends the load in progress.
use vstd::prelude::*;

verus! {

#[derive(Clone, Copy, Debug, PartialEq, Eq, Structural)]
pub enum LoadError {
    /// The bytes are no image in a supported encoding.
    ImageDecodeError,
    /// The image decoded, but its pixels are not 8-bit RGBA.
    UnsupportedPixelFormat,
    /// The bytes of a referenced image could not be fetched.
    SourceNotFound,
    /// The tile set at this position claims global ids that an earlier one
    /// already owns.
    GidRangeCollision { tileset: usize },
    /// A cell of the map holds an id that the remapper cannot resolve.
    CorruptMapReference { gid: u32 },
    /// A packing pass produced more than one atlas.
    MultiAtlasUnsupported,
    /// The tile sets of the map describe tiles whose atlas would not fit in
    /// 32-bit pixel coordinates.
    AtlasTooLarge,
}

} // verus!
