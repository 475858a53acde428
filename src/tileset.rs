//! Tile-set descriptions, and gathering the tiles of a map's tile sets
//! behind the empty placeholder tile.
use vstd::prelude::*;
use crate::bitmap::{Bitmap, sub_image_spec};
use crate::extract::{TileSpec, pack_image, tile_origin, tiles_along};

verus! {

/// One source image of a tile set: where its bytes are, and the colour
/// that stands for transparency, if any.
#[derive(Clone, Debug)]
pub struct ImageRef {
    pub source: String,
    pub transparent_colour: Option<(u8, u8, u8)>,
}

/// A tile set: its name, the global id of its first tile, its grid
/// geometry, and its source images in order.
#[derive(Clone, Debug)]
pub struct TileSetDesc {
    pub name: String,
    pub first_gid: u32,
    pub spec: TileSpec,
    pub images: Vec<ImageRef>,
}

/// A tile as plain values: width, height, pixel bytes.
pub open spec fn tile_view(b: Bitmap) -> (u32, u32, Seq<u8>) {
    (b.width, b.height, b.pixels@)
}

/// The tiles that slicing `image` gives, in row-major order.
pub open spec fn image_tiles(image: Bitmap, spec: TileSpec) -> Seq<(u32, u32, Seq<u8>)> {
    let cols = tiles_along(image.width as int, spec.margin as int, spec.width as int, spec.spacing as int);
    let rows = tiles_along(image.height as int, spec.margin as int, spec.height as int, spec.spacing as int);
    Seq::new(
        (cols * rows) as nat,
        |i: int|
            (
                spec.width,
                spec.height,
                sub_image_spec(
                    image.pixels@,
                    image.width as int,
                    tile_origin(spec, cols, i).0,
                    tile_origin(spec, cols, i).1,
                    spec.width as int,
                    spec.height as int,
                ),
            ),
    )
}

/// The tiles of a tile set's images, image after image.
pub open spec fn set_tiles(images: Seq<Bitmap>, spec: TileSpec) -> Seq<(u32, u32, Seq<u8>)>
    decreases images.len(),
{
    if images.len() == 0 {
        Seq::empty()
    } else {
        set_tiles(images.drop_last(), spec) + image_tiles(images.last(), spec)
    }
}

/// The tiles of all tile sets, set after set.
pub open spec fn map_tiles(specs: Seq<TileSpec>, images: Seq<Vec<Bitmap>>) -> Seq<(u32, u32, Seq<u8>)>
    decreases images.len(),
{
    if images.len() == 0 || specs.len() == 0 {
        Seq::empty()
    } else {
        map_tiles(specs.drop_last(), images.drop_last()) + set_tiles(images.last()@, specs.last())
    }
}

/// The grid geometry of each tile set.
pub open spec fn specs_of(sets: Seq<TileSetDesc>) -> Seq<TileSpec> {
    sets.map_values(|s: TileSetDesc| s.spec)
}

/// The fully transparent tile that stands at index 0 of an atlas.
pub open spec fn placeholder(w: u32, h: u32) -> (u32, u32, Seq<u8>) {
    (w, h, Seq::new((4 * w * h) as nat, |i: int| 0u8))
}

/// Decoded images fit a list of tile sets: one list of well-formed bitmaps
/// per set, one bitmap per image reference.
pub open spec fn images_fit(sets: Seq<TileSetDesc>, images: Seq<Vec<Bitmap>>) -> bool {
    &&& images.len() == sets.len()
    &&& forall|s: int| 0 <= s < sets.len() ==> {
        &&& (#[trigger] images[s])@.len() == sets[s].images@.len()
        &&& forall|k: int| 0 <= k < images[s]@.len() ==> (#[trigger] images[s]@[k]).wf()
    }
    &&& forall|s: int| 0 <= s < sets.len() ==> (#[trigger] sets[s]).spec.width > 0 && sets[s].spec.height > 0
}

/// The fully transparent `w` x `h` tile.
pub fn placeholder_tile(w: u32, h: u32) -> (r: Bitmap)
    requires
        4 * w * h <= usize::MAX,
    ensures
        r.wf(),
        tile_view(r) == placeholder(w, h),
{
    proof {
        assert(4 * (w * h) == 4 * w * h && w * h <= 4 * (w * h)) by (nonlinear_arith);
    }
    let n: usize = 4 * ((w as usize) * (h as usize));
    let mut px: Vec<u8> = Vec::new();
    let mut i: usize = 0;
    while i < n
        invariant
            0 <= i <= n,
            px@.len() == i,
            forall|k: int| 0 <= k < i ==> #[trigger] px@[k] == 0u8,
        decreases n - i,
    {
        px.push(0);
        i = i + 1;
    }
    let r = Bitmap { width: w, height: h, pixels: px };
    assert(tile_view(r).2 =~= placeholder(w, h).2);
    r
}

/// Appends the tiles that slicing `image` gives.
pub(crate) fn append_image_tiles(out: &mut Vec<Bitmap>, image: &Bitmap, spec: &TileSpec)
    requires
        image.wf(),
        spec.width > 0,
        spec.height > 0,
        forall|k: int| 0 <= k < old(out)@.len() ==> (#[trigger] old(out)@[k]).wf(),
    ensures
        final(out)@.map_values(|b: Bitmap| tile_view(b)) == old(out)@.map_values(|b: Bitmap| tile_view(b)) + image_tiles(*image, *spec),
        forall|k: int| 0 <= k < final(out)@.len() ==> (#[trigger] final(out)@[k]).wf(),
{
    let tiles = pack_image(image, spec);
    let ghost start = old(out)@.map_values(|b: Bitmap| tile_view(b));
    let ghost want = image_tiles(*image, *spec);
    assert(tiles@.len() == want.len());
    let n = tiles.len();
    let mut i: usize = 0;
    let mut tiles = tiles;
    let ghost all = tiles@;
    while i < n
        invariant
            n == all.len(),
            n == want.len(),
            0 <= i <= n,
            tiles@ == all.skip(i as int),
            forall|k: int| 0 <= k < n ==> tile_view(#[trigger] all[k]) == want[k],
            forall|k: int| 0 <= k < n ==> (#[trigger] all[k]).wf(),
            out@.map_values(|b: Bitmap| tile_view(b)) == start + want.take(i as int),
            forall|k: int| 0 <= k < out@.len() ==> (#[trigger] out@[k]).wf(),
        decreases n - i,
    {
        let t = tiles.remove(0);
        assert(t == all[i as int]);
        let ghost before = out@;
        out.push(t);
        proof {
            assert(tiles@ =~= all.skip(i + 1));
            assert(want.take(i + 1) =~= want.take(i as int).push(want[i as int]));
            assert(out@.map_values(|b: Bitmap| tile_view(b)) =~= before.map_values(|b: Bitmap| tile_view(b)).push(tile_view(t)));
        }
        i = i + 1;
    }
    assert(want.take(n as int) =~= want);
}

/// All tiles of a map's tile sets, behind the `tile_size` placeholder at
/// index 0: set after set, image after image, each image in row-major
/// order.
pub fn gather_tiles(sets: &Vec<TileSetDesc>, images: &Vec<Vec<Bitmap>>, tile_size: (u32, u32)) -> (r: Vec<Bitmap>)
    requires
        images_fit(sets@, images@),
        4 * tile_size.0 * tile_size.1 <= usize::MAX,
    ensures
        r@.map_values(|b: Bitmap| tile_view(b)) == seq![placeholder(tile_size.0, tile_size.1)] + map_tiles(specs_of(sets@), images@),
        forall|k: int| 0 <= k < r@.len() ==> (#[trigger] r@[k]).wf(),
{
    let mut out: Vec<Bitmap> = Vec::new();
    let ph = placeholder_tile(tile_size.0, tile_size.1);
    out.push(ph);
    let ghost head = seq![placeholder(tile_size.0, tile_size.1)];
    assert(out@.map_values(|b: Bitmap| tile_view(b)) =~= head);
    let ghost specs = specs_of(sets@);
    let mut s: usize = 0;
    while s < sets.len()
        invariant
            images_fit(sets@, images@),
            specs == specs_of(sets@),
            0 <= s <= sets@.len(),
            out@.map_values(|b: Bitmap| tile_view(b)) == head + map_tiles(specs.take(s as int), images@.take(s as int)),
            forall|k: int| 0 <= k < out@.len() ==> (#[trigger] out@[k]).wf(),
        decreases sets@.len() - s,
    {
        let spec = sets[s].spec;
        let set_images = &images[s];
        assert(images@[s as int] == *set_images);
        let ghost mid = out@.map_values(|b: Bitmap| tile_view(b));
        let mut k: usize = 0;
        while k < set_images.len()
            invariant
                images_fit(sets@, images@),
                0 <= s < sets@.len(),
                *set_images == images@[s as int],
                spec == sets@[s as int].spec,
                0 <= k <= set_images@.len(),
                out@.map_values(|b: Bitmap| tile_view(b)) == mid + set_tiles(set_images@.take(k as int), spec),
                forall|j: int| 0 <= j < out@.len() ==> (#[trigger] out@[j]).wf(),
            decreases set_images@.len() - k,
        {
            assert(set_images@[k as int].wf());
            append_image_tiles(&mut out, &set_images[k], &spec);
            proof {
                let t = set_images@.take(k + 1);
                assert(t.drop_last() =~= set_images@.take(k as int));
                assert(t.last() == set_images@[k as int]);
            }
            k = k + 1;
        }
        proof {
            assert(set_images@.take(set_images@.len() as int) =~= set_images@);
            let sp = specs.take(s + 1);
            let im = images@.take(s + 1);
            assert(sp.drop_last() =~= specs.take(s as int));
            assert(im.drop_last() =~= images@.take(s as int));
            assert(sp.last() == spec);
            assert(im.last() == *set_images);
            assert(head + map_tiles(sp, im) =~= mid + set_tiles(set_images@, spec));
        }
        s = s + 1;
    }
    proof {
        assert(specs.take(sets@.len() as int) =~= specs);
        assert(images@.take(sets@.len() as int) =~= images@);
    }
    out
}

} // verus!
