//! Tile-atlas packing and grid-id remapping.
//!
//! Tile sheets are sliced into tiles, the tiles are packed into one atlas,
//! and the sparse global tile ids of a map are remapped onto dense indices
//! into that atlas.
use vstd::prelude::*;

pub mod atlas;
pub mod bitmap;
pub mod cache;
pub mod compose;
pub mod decode;
pub mod encode;
pub mod error;
pub mod extract;
pub mod format;
pub mod gid_map;
pub mod grid;
pub mod packing;
pub mod prefab;
pub mod ranges;
pub mod source;
pub mod strategy;
pub mod tileset;
pub mod usage;

pub use format::TiledFormat;
pub use prefab::{TileMapPrefab, TileSetPrefab};
pub use strategy::{CompressedLoad, FlatLoad, StaticLoad};

verus! {

/// The atlas index of a cell's tile.
#[derive(Copy, Clone, Hash, Default, Debug, PartialEq, Eq, Structural)]
pub struct TileGid(pub usize);

impl From<usize> for TileGid {
    fn from(idx: usize) -> (r: TileGid)
        ensures
            r.0 == idx,
    {
        TileGid(idx)
    }
}

impl vstd::std_specs::convert::FromSpecImpl<usize> for TileGid {
    open spec fn obeys_from_spec() -> bool {
        true
    }

    open spec fn from_spec(idx: usize) -> TileGid {
        TileGid(idx)
    }
}

impl TileGid {
    /// The sprite that the cell shows: always its atlas index.
    pub fn sprite(&self) -> (r: Option<usize>)
        ensures
            r == Some(self.0),
    {
        Some(self.0)
    }
}

} // verus!
