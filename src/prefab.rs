//! The lifecycle of a map and of a tile set on their way from description
//! to loaded asset.
use vstd::prelude::*;
use crate::bitmap::Bitmap;
use crate::atlas::{Atlas, pack_outcome};
use crate::cache::{Tilesets, cached, cached_with};
use crate::source::{ImageSource, fetch_error, fetch_set_images, pack_tileset, set_images_fit};
use crate::tileset::{set_tiles, tile_view};
use crate::error::LoadError;
use crate::strategy::{
    CompressedLoad, FlatLoad, LoadedMap, MapDesc, compressed_error, compressed_from, compressed_loads, flat_error,
    flat_loads, load_inputs, loaded_from,
};
use crate::tileset::TileSetDesc;

verus! {

/// A map, first as its description, then loaded.
#[derive(Debug)]
pub enum TileMapPrefab {
    Described(MapDesc),
    Loaded(LoadedMap),
}

impl TileMapPrefab {
    /// Loads a described map, by the compressed strategy where `compressed`
    /// holds and the flat one otherwise. Returns whether it loaded; a map
    /// already loaded stays as it is. On failure the description stays.
    pub fn load_sub_assets(&mut self, images: &Vec<Vec<Bitmap>>, compressed: bool) -> (r: Result<bool, LoadError>)
        requires
            *old(self) matches TileMapPrefab::Described(m) ==> load_inputs(m, images@),
        ensures
            *old(self) is Loaded ==> r == Ok::<bool, LoadError>(false) && *final(self) == *old(self),
            r is Err ==> *final(self) == *old(self),
            *old(self) matches TileMapPrefab::Described(m) ==> (r is Ok <==> *final(self) is Loaded)
                && (r is Ok <==> if compressed { compressed_loads(m, images@) } else { flat_loads(m, images@) }),
            *old(self) matches TileMapPrefab::Described(m) ==> (r matches Err(e) ==> if compressed {
                compressed_error(m, images@, e)
            } else {
                flat_error(m, images@, e)
            }),
            *old(self) matches TileMapPrefab::Described(m) ==> (*final(self) matches TileMapPrefab::Loaded(l) ==> r == Ok::<bool, LoadError>(true)
                && if compressed { compressed_from(m, images@, l) } else { loaded_from(m, images@, l) }),
    {
        let loaded = match &*self {
            TileMapPrefab::Loaded(_) => {
                return Ok(false);
            },
            TileMapPrefab::Described(m) => {
                if compressed {
                    CompressedLoad::load(m, images)
                } else {
                    FlatLoad::load(m, images)
                }
            },
        };
        match loaded {
            Ok(l) => {
                *self = TileMapPrefab::Loaded(l);
                Ok(true)
            },
            Err(e) => Err(e),
        }
    }

    /// The loaded map, once loaded.
    pub fn add_to_entity(&self) -> (r: Option<&LoadedMap>)
        ensures
            self matches TileMapPrefab::Loaded(l) ==> r == Some(l),
            self is Described ==> r is None,
    {
        match self {
            TileMapPrefab::Loaded(l) => Some(l),
            TileMapPrefab::Described(_) => None,
        }
    }
}

/// A tile set, first as its description, then as the handle of its atlas.
#[derive(Debug)]
pub enum TileSetPrefab {
    Handle(u64),
    TileSet(TileSetDesc),
}

/// `a` is the atlas of the tile set's tiles, from images that decoding
/// some bytes gives.
pub open spec fn packed_set(set: TileSetDesc, a: Atlas) -> bool {
    exists|images: Seq<Bitmap>, tiles: Seq<Bitmap>| {
        &&& #[trigger] set_images_fit(set, images)
        &&& tiles.map_values(|b: Bitmap| tile_view(b)) == set_tiles(images, set.spec)
        &&& #[trigger] pack_outcome(tiles, Ok::<Atlas, LoadError>(a))
    }
}

/// What resolving a described tile set does, from the cache `before`: a
/// cached set takes the cached handle; a new one is fetched and packed,
/// and only then cached under `fresh`, which it takes. A failure leaves
/// the prefab and the cache as they were.
pub open spec fn tileset_step(
    set: TileSetDesc,
    before: Seq<(Seq<char>, u64)>,
    fresh: u64,
    r: Result<Option<Atlas>, LoadError>,
    prefab: TileSetPrefab,
    after: Seq<(Seq<char>, u64)>,
) -> bool {
    match cached(before, set.name@) {
        Some(h) => r == Ok::<Option<Atlas>, LoadError>(None) && prefab == TileSetPrefab::Handle(h) && after == before,
        None => {
            &&& (set.images@.len() == 0 ==> r is Ok)
            &&& (r is Err ==> prefab == TileSetPrefab::TileSet(set) && after == before)
            &&& (r matches Err(e) ==> fetch_error(e) || e == LoadError::AtlasTooLarge)
            &&& (r is Ok ==> prefab == TileSetPrefab::Handle(fresh) && cached_with(before, after, set.name@, fresh)
                && (r->Ok_0 matches Some(a) && packed_set(set, a)))
        },
    }
}

/// Packing fails only on an atlas too large.
proof fn lemma_pack_error_kind(tiles: Seq<Bitmap>, e: LoadError)
    requires
        pack_outcome(tiles, Err(e)),
    ensures
        e == LoadError::AtlasTooLarge,
{
}

impl TileSetPrefab {
    /// Resolves a described tile set to an atlas handle. A set that the
    /// cache holds takes its handle. A new set is fetched from `source` and
    /// packed, then cached under `fresh`; the atlas is handed back. On
    /// failure nothing changes.
    pub fn load_sub_assets<S: ImageSource>(&mut self, tilesets: &mut Tilesets, source: &S, fresh: u64) -> (r: Result<Option<Atlas>, LoadError>)
        requires
            old(tilesets).wf(),
            *old(self) matches TileSetPrefab::TileSet(set) ==> set.spec.width > 0 && set.spec.height > 0,
        ensures
            final(tilesets).wf(),
            *old(self) is Handle ==> r == Ok::<Option<Atlas>, LoadError>(None) && *final(self) == *old(self)
                && final(tilesets)@ == old(tilesets)@,
            *old(self) matches TileSetPrefab::TileSet(set) ==> tileset_step(set, old(tilesets)@, fresh, r, *final(self), final(tilesets)@),
    {
        let cached_handle = match &*self {
            TileSetPrefab::Handle(_) => {
                return Ok(None);
            },
            TileSetPrefab::TileSet(set) => match tilesets.get(&set.name) {
                Some(h) => Some(h),
                None => {
                    let images = match fetch_set_images(set, source) {
                        Ok(i) => i,
                        Err(e) => {
                            return Err(e);
                        },
                    };
                    let packed = pack_tileset(set, &images);
                    let atlas = match packed {
                        Ok(a) => a,
                        Err(e) => {
                            proof {
                                let t = choose|tiles: Seq<Bitmap>| {
                                    &&& tiles.map_values(|b: Bitmap| tile_view(b)) == set_tiles(images@, set.spec)
                                    &&& pack_outcome(tiles, Err(e))
                                };
                                lemma_pack_error_kind(t, e);
                                if set.images@.len() == 0 {
                                    assert(images@.len() == 0);
                                    assert(set_tiles(images@, set.spec).len() == 0);
                                    assert(t.map_values(|b: Bitmap| tile_view(b)).len() == t.len());
                                    assert(t.len() == 0);
                                }
                            }
                            return Err(e);
                        },
                    };
                    proof {
                        let t = choose|tiles: Seq<Bitmap>| {
                            &&& tiles.map_values(|b: Bitmap| tile_view(b)) == set_tiles(images@, set.spec)
                            &&& pack_outcome(tiles, Ok::<Atlas, LoadError>(atlas))
                        };
                        assert(set_images_fit(*set, images@));
                        assert(pack_outcome(t, Ok::<Atlas, LoadError>(atlas)));
                        assert(packed_set(*set, atlas));
                    }
                    tilesets.push(set.name.clone(), fresh);
                    *self = TileSetPrefab::Handle(fresh);
                    return Ok(Some(atlas));
                },
            },
        };
        match cached_handle {
            Some(h) => {
                *self = TileSetPrefab::Handle(h);
            },
            None => {},
        }
        Ok(None)
    }

    /// The atlas handle, once resolved.
    pub fn add_to_entity(&self) -> (r: Option<u64>)
        ensures
            self matches TileSetPrefab::Handle(h) ==> r == Some(*h),
            self is TileSet ==> r is None,
    {
        match self {
            TileSetPrefab::Handle(h) => Some(*h),
            TileSetPrefab::TileSet(_) => None,
        }
    }
}

} // verus!
