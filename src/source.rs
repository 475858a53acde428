//! Fetching the images of tile sets, and packing tile sets into atlases.
use vstd::prelude::*;
use crate::atlas::{Atlas, pack_outcome, pack_tiles};
use crate::bitmap::Bitmap;
use crate::decode::{bitmap_matches, bitmap_spec, decoded_rgba8, open_image};
use crate::error::LoadError;
use crate::tileset::{TileSetDesc, gather_tiles, images_fit, map_tiles, placeholder, set_tiles, specs_of, tile_view};

verus! {

/// Where the encoded bytes of images come from: a directory, an archive,
/// or anything else that can look a path up.
pub trait ImageSource {
    /// The bytes stored under `path`; `None` where there are none.
    fn load(&self, path: &String) -> Option<Vec<u8>>;
}

/// `b` is what decoding some bytes gives, with the pixels of colour `key`
/// made transparent.
pub open spec fn decoded_from(b: Bitmap, key: Option<(u8, u8, u8)>) -> bool {
    exists|bytes: Seq<u8>| #[trigger] bitmap_matches(Ok(b), bitmap_spec(decoded_rgba8(bytes), key))
}

/// The errors that fetching and decoding an image can give.
pub open spec fn fetch_error(e: LoadError) -> bool {
    e == LoadError::SourceNotFound || e == LoadError::ImageDecodeError || e == LoadError::UnsupportedPixelFormat
}

/// The images of a tile set, decoded: one well-formed bitmap per image
/// reference, each what decoding some bytes gives with its key applied.
pub open spec fn set_images_fit(set: TileSetDesc, images: Seq<Bitmap>) -> bool {
    &&& images.len() == set.images@.len()
    &&& forall|k: int| 0 <= k < images.len() ==> (#[trigger] images[k]).wf()
    &&& forall|k: int| 0 <= k < images.len() ==> decoded_from(#[trigger] images[k], set.images@[k].transparent_colour)
}

/// Fetches and decodes the images of one tile set, in order, making each
/// image's transparency key transparent. Fails where an image cannot be
/// fetched or decoded; a tile set without images cannot fail.
pub fn fetch_set_images<S: ImageSource>(set: &TileSetDesc, source: &S) -> (r: Result<Vec<Bitmap>, LoadError>)
    ensures
        set.images@.len() == 0 ==> r is Ok,
        r matches Err(e) ==> fetch_error(e),
        r matches Ok(images) ==> set_images_fit(*set, images@),
{
    let mut bitmaps: Vec<Bitmap> = Vec::new();
    let mut k: usize = 0;
    while k < set.images.len()
        invariant
            0 <= k <= set.images@.len(),
            bitmaps@.len() == k,
            forall|j: int| 0 <= j < k ==> (#[trigger] bitmaps@[j]).wf(),
            forall|j: int| 0 <= j < k ==> decoded_from(#[trigger] bitmaps@[j], set.images@[j].transparent_colour),
        decreases set.images@.len() - k,
    {
        let img = &set.images[k];
        let bytes = match source.load(&img.source) {
            Some(b) => b,
            None => {
                return Err(LoadError::SourceNotFound);
            },
        };
        let b = match open_image(&bytes, img.transparent_colour) {
            Ok(b) => b,
            Err(e) => {
                return Err(e);
            },
        };
        assert(bitmap_matches(Ok(b), bitmap_spec(decoded_rgba8(bytes@), img.transparent_colour)));
        bitmaps.push(b);
        k = k + 1;
    }
    Ok(bitmaps)
}

/// Fetches and decodes every image of every tile set, in order, making
/// each image's transparency key transparent. Fails where an image
/// cannot be fetched or decoded; tile sets without images need no fetch
/// and cannot fail.
pub fn fetch_images<S: ImageSource>(sets: &Vec<TileSetDesc>, source: &S) -> (r: Result<Vec<Vec<Bitmap>>, LoadError>)
    requires
        forall|s: int| 0 <= s < sets@.len() ==> (#[trigger] sets@[s]).spec.width > 0 && sets@[s].spec.height > 0,
    ensures
        (forall|s: int| 0 <= s < sets@.len() ==> (#[trigger] sets@[s]).images@.len() == 0) ==> r is Ok,
        r matches Err(e) ==> fetch_error(e),
        r matches Ok(images) ==> images_fit(sets@, images@),
        r matches Ok(images) ==> forall|s: int| 0 <= s < sets@.len() ==> set_images_fit(#[trigger] sets@[s], images@[s]@),
{
    let mut out: Vec<Vec<Bitmap>> = Vec::new();
    let mut s: usize = 0;
    while s < sets.len()
        invariant
            forall|t: int| 0 <= t < sets@.len() ==> (#[trigger] sets@[t]).spec.width > 0 && sets@[t].spec.height > 0,
            0 <= s <= sets@.len(),
            out@.len() == s,
            forall|t: int| 0 <= t < s ==> set_images_fit(sets@[t], (#[trigger] out@[t])@),
        decreases sets@.len() - s,
    {
        let bitmaps = match fetch_set_images(&sets[s], source) {
            Ok(b) => b,
            Err(e) => {
                assert(sets@[s as int].images@.len() != 0);
                return Err(e);
            },
        };
        out.push(bitmaps);
        s = s + 1;
    }
    assert forall|t: int| 0 <= t < sets@.len() implies #[trigger] (out@[t])@.len() == sets@[t].images@.len() by {
        assert(set_images_fit(sets@[t], out@[t]@));
    }
    Ok(out)
}

/// Packs every tile of the tile sets behind the `tile_size` placeholder
/// into one atlas.
pub fn pack_tileset_vec(sets: &Vec<TileSetDesc>, images: &Vec<Vec<Bitmap>>, tile_size: (u32, u32)) -> (r: Result<Atlas, LoadError>)
    requires
        images_fit(sets@, images@),
        4 * tile_size.0 * tile_size.1 <= usize::MAX,
    ensures
        exists|tiles: Seq<Bitmap>| {
            &&& tiles.map_values(|b: Bitmap| tile_view(b)) == seq![placeholder(tile_size.0, tile_size.1)] + map_tiles(specs_of(sets@), images@)
            &&& pack_outcome(tiles, r)
        },
{
    let tiles = gather_tiles(sets, images, tile_size);
    let r = pack_tiles(&tiles);
    assert(pack_outcome(tiles@, r));
    r
}

/// Packs the tiles of one tile set, image after image, into one atlas.
pub fn pack_tileset(set: &TileSetDesc, images: &Vec<Bitmap>) -> (r: Result<Atlas, LoadError>)
    requires
        set.spec.width > 0,
        set.spec.height > 0,
        forall|k: int| 0 <= k < images@.len() ==> (#[trigger] images@[k]).wf(),
    ensures
        exists|tiles: Seq<Bitmap>| {
            &&& tiles.map_values(|b: Bitmap| tile_view(b)) == set_tiles(images@, set.spec)
            &&& pack_outcome(tiles, r)
        },
{
    let mut tiles: Vec<Bitmap> = Vec::new();
    let mut k: usize = 0;
    while k < images.len()
        invariant
            set.spec.width > 0,
            set.spec.height > 0,
            forall|j: int| 0 <= j < images@.len() ==> (#[trigger] images@[j]).wf(),
            0 <= k <= images@.len(),
            tiles@.map_values(|b: Bitmap| tile_view(b)) == set_tiles(images@.take(k as int), set.spec),
            forall|j: int| 0 <= j < tiles@.len() ==> (#[trigger] tiles@[j]).wf(),
        decreases images@.len() - k,
    {
        crate::tileset::append_image_tiles(&mut tiles, &images[k], &set.spec);
        proof {
            assert(images@.take(k + 1).drop_last() =~= images@.take(k as int));
            assert(images@.take(k + 1).last() == images@[k as int]);
        }
        k = k + 1;
    }
    assert(images@.take(images@.len() as int) =~= images@);
    let r = pack_tiles(&tiles);
    assert(pack_outcome(tiles@, r));
    r
}

} // verus!
