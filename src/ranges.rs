//! The global-id runs of a map's tile sets, and the dense remapper built
//! from them.
use vstd::prelude::*;
use crate::bitmap::Bitmap;
use crate::error::LoadError;
use crate::extract::{TileSpec, tiles_along_exec};
use crate::gid_map::{GidMap, GidRange, collides, ranges_valid, overlaps, sum_lens};
use crate::tileset::{TileSetDesc, image_tiles, images_fit, map_tiles, set_tiles, specs_of};

verus! {

/// The run of global ids of each tile set: from its first id, one id per
/// tile of its images.
pub open spec fn set_ranges(sets: Seq<TileSetDesc>, images: Seq<Vec<Bitmap>>) -> Seq<GidRange> {
    Seq::new(
        sets.len(),
        |s: int| GidRange { first: sets[s].first_gid, len: set_tiles(images[s]@, sets[s].spec).len() as u32 },
    )
}

/// The tile count of every tile set fits in a 32-bit run length.
pub open spec fn counts_fit(sets: Seq<TileSetDesc>, images: Seq<Vec<Bitmap>>, n: int) -> bool {
    forall|s: int| 0 <= s < n ==> #[trigger] set_tiles(images[s]@, sets[s].spec).len() <= u32::MAX
}

proof fn lemma_set_tiles_grow(images: Seq<Bitmap>, spec: TileSpec, k: int)
    requires
        0 <= k <= images.len(),
    ensures
        set_tiles(images.take(k), spec).len() <= set_tiles(images, spec).len(),
    decreases images.len() - k,
{
    if k < images.len() {
        lemma_set_tiles_grow(images, spec, k + 1);
        assert(images.take(k + 1).drop_last() =~= images.take(k));
    } else {
        assert(images.take(k) =~= images);
    }
}

/// How many tiles the images of a tile set give; `None` where that is more
/// than a 32-bit run length holds.
fn set_tile_count(images: &Vec<Bitmap>, spec: &TileSpec) -> (r: Option<u32>)
    requires
        spec.width > 0,
        spec.height > 0,
    ensures
        r matches Some(c) ==> c == set_tiles(images@, *spec).len(),
        r is None ==> set_tiles(images@, *spec).len() > u32::MAX,
{
    let mut count: u64 = 0;
    let mut k: usize = 0;
    while k < images.len()
        invariant
            spec.width > 0,
            spec.height > 0,
            0 <= k <= images@.len(),
            count == set_tiles(images@.take(k as int), *spec).len(),
            count <= u32::MAX,
        decreases images@.len() - k,
    {
        let img = &images[k];
        let cols = tiles_along_exec(img.width, spec.margin, spec.width, spec.spacing);
        let rows = tiles_along_exec(img.height, spec.margin, spec.height, spec.spacing);
        proof {
            assert(images@.take(k + 1).drop_last() =~= images@.take(k as int));
            assert(images@.take(k + 1).last() == *img);
            assert(cols * rows <= 0xffff_ffff * 0xffff_ffff) by (nonlinear_arith)
                requires
                    cols <= 0xffff_ffff,
                    rows <= 0xffff_ffff,
            ;
            assert(image_tiles(*img, *spec).len() == cols * rows);
        }
        let c = cols as u64 * rows as u64;
        if c > u32::MAX as u64 || count + c > u32::MAX as u64 {
            proof {
                lemma_set_tiles_grow(images@, *spec, k + 1);
            }
            return None;
        }
        count = count + c;
        k = k + 1;
    }
    assert(images@.take(images@.len() as int) =~= images@);
    Some(count as u32)
}

/// `e` is the error of the first tile set whose runs cannot be registered:
/// `AtlasTooLarge` where its tile count does not fit a run length, else
/// `GidRangeCollision` naming it, its run colliding with an earlier one.
pub open spec fn gid_map_error(sets: Seq<TileSetDesc>, images: Seq<Vec<Bitmap>>, e: LoadError) -> bool {
    exists|s: int| 0 <= s < sets.len() && counts_fit(sets, images, s)
        && ranges_valid(#[trigger] set_ranges(sets, images).take(s)) && {
        let rs = set_ranges(sets, images);
        if set_tiles(images[s]@, sets[s].spec).len() > u32::MAX {
            e == LoadError::AtlasTooLarge
        } else {
            collides(rs.take(s), rs[s].first as int, rs[s].len as int)
                && e == (LoadError::GidRangeCollision { tileset: s as usize })
        }
    }
}

/// Builds the dense remapper of a map's tile sets, registering their runs
/// in order. Fails at the first tile set whose tile count does not fit a
/// run length, or whose run collides with an earlier one.
pub fn build_gid_map(sets: &Vec<TileSetDesc>, images: &Vec<Vec<Bitmap>>) -> (r: Result<GidMap, LoadError>)
    requires
        images_fit(sets@, images@),
    ensures
        r is Ok <==> counts_fit(sets@, images@, sets@.len() as int) && ranges_valid(set_ranges(sets@, images@)),
        r matches Ok(m) ==> m.wf() && m@ == set_ranges(sets@, images@),
        r matches Err(e) ==> gid_map_error(sets@, images@, e),
{
    let ghost rs = set_ranges(sets@, images@);
    let mut map = GidMap::new();
    let mut s: usize = 0;
    while s < sets.len()
        invariant
            images_fit(sets@, images@),
            rs == set_ranges(sets@, images@),
            0 <= s <= sets@.len(),
            map.wf(),
            map@ == rs.take(s as int),
            counts_fit(sets@, images@, s as int),
        decreases sets@.len() - s,
    {
        assert(images@[s as int]@.len() == sets@[s as int].images@.len());
        let count = set_tile_count(&images[s], &sets[s].spec);
        let count = match count {
            None => {
                return Err(LoadError::AtlasTooLarge);
            },
            Some(c) => c,
        };
        assert(rs[s as int] == GidRange { first: sets@[s as int].first_gid, len: count });
        if !map.add_set(sets[s].first_gid, count) {
            proof {
                let c = choose|i: int| 0 <= i < map@.len() && #[trigger] overlaps(map@[i], rs[s as int].first as int, rs[s as int].len as int);
                assert(map@[c] == rs[c]);
                assert(!ranges_valid(rs)) by {
                    assert(overlaps(rs[c], rs[s as int].first as int, rs[s as int].len as int));
                }
            }
            return Err(LoadError::GidRangeCollision { tileset: s });
        }
        assert(rs.take(s + 1) =~= rs.take(s as int).push(rs[s as int]));
        s = s + 1;
    }
    assert(rs.take(sets@.len() as int) =~= rs);
    Ok(map)
}

/// Where every tile count fits a run length, the runs are as long,
/// together, as the list of all tiles.
pub proof fn lemma_total_tiles(sets: Seq<TileSetDesc>, images: Seq<Vec<Bitmap>>)
    requires
        images.len() == sets.len(),
        counts_fit(sets, images, sets.len() as int),
    ensures
        map_tiles(specs_of(sets), images).len() == sum_lens(set_ranges(sets, images)),
    decreases sets.len(),
{
    if sets.len() > 0 {
        let ps = sets.drop_last();
        let pi = images.drop_last();
        assert forall|s: int| 0 <= s < ps.len() implies #[trigger] set_tiles(pi[s]@, ps[s].spec).len() <= u32::MAX by {
            assert(pi[s] == images[s] && ps[s] == sets[s]);
            assert(set_tiles(images[s]@, sets[s].spec).len() <= u32::MAX);
        }
        lemma_total_tiles(ps, pi);
        assert(specs_of(sets).drop_last() =~= specs_of(ps));
        assert(set_ranges(sets, images).drop_last() =~= set_ranges(ps, pi));
        let last = sets.len() - 1;
        assert(set_tiles(images[last]@, sets[last].spec).len() <= u32::MAX);
    }
}

} // verus!
