//! Loading a map: packing its tile sets into one atlas and filling its
//! grid with indices into that atlas, by one of two strategies.
use vstd::prelude::*;
use crate::atlas::{Atlas, lemma_pack_outcome_views, pack_outcome, pack_tiles};
use crate::bitmap::Bitmap;
use crate::error::LoadError;
use crate::gid_map::{GidMap, GidRange, lookup, lemma_lookup_below_total, lemma_sum_lens_nonneg, ranges_valid, sum_lens};
use crate::grid::{GidRemap, grid_remapped, grid_resolves, remap_grid};
use crate::ranges::{build_gid_map, counts_fit, gid_map_error, lemma_total_tiles, set_ranges};
use crate::tileset::{TileSetDesc, gather_tiles, images_fit, map_tiles, placeholder, specs_of, tile_view};
use crate::usage::{LayerGrid, SparseGidMap, grid_holds, lemma_ascending_unique, strictly_ascending};

verus! {

/// A map as the loader sees it: its size, its tile size, its tile sets,
/// and its cells' global ids, `[layer][row][column]`.
#[derive(Clone, Debug)]
pub struct MapDesc {
    pub width: u32,
    pub height: u32,
    pub tile_width: u32,
    pub tile_height: u32,
    pub tilesets: Vec<TileSetDesc>,
    pub layers: LayerGrid,
}

/// A loaded map: its atlas, and the atlas index of every cell.
#[derive(Debug)]
pub struct LoadedMap {
    pub atlas: Atlas,
    pub grid: Vec<Vec<Vec<u64>>>,
}

/// Names what a load strategy produces.
pub trait StrategyDesc {
    type Result;
}

/// Packs every tile of every tile set, and resolves cells through the
/// dense remapper. Best where a map uses most of its tiles.
#[derive(Clone, Copy, Debug, Default)]
pub struct FlatLoad;

/// Packs only the tiles that the map uses, and resolves cells through the
/// sparse remapper. Best where a map uses few of its tiles.
#[derive(Clone, Copy, Debug, Default)]
pub struct CompressedLoad;

/// Merges all layers of a map into a single texture; only the result it
/// produces is named here.
#[derive(Clone, Copy, Debug, Default)]
pub struct StaticLoad;

impl StrategyDesc for FlatLoad {
    type Result = LoadedMap;
}

impl StrategyDesc for CompressedLoad {
    type Result = LoadedMap;
}

impl StrategyDesc for StaticLoad {
    type Result = Atlas;
}

/// The tiles that gathering a map's tile sets gives: the placeholder, then
/// every tile of every set.
pub open spec fn gathered(map: MapDesc, images: Seq<Vec<Bitmap>>) -> Seq<(u32, u32, Seq<u8>)> {
    seq![placeholder(map.tile_width, map.tile_height)] + map_tiles(specs_of(map.tilesets@), images)
}

/// The tile sets' runs can be registered: no count too large, no collision.
pub open spec fn ranges_ok(map: MapDesc, images: Seq<Vec<Bitmap>>) -> bool {
    counts_fit(map.tilesets@, images, map.tilesets@.len() as int) && ranges_valid(set_ranges(map.tilesets@, images))
}

/// The requirements every load shares: decoded images that fit the tile
/// sets, and a placeholder that fits in memory.
pub open spec fn load_inputs(map: MapDesc, images: Seq<Vec<Bitmap>>) -> bool {
    &&& images_fit(map.tilesets@, images)
    &&& 4 * map.tile_width * map.tile_height <= usize::MAX
}

/// Copies a bitmap.
fn copy_bitmap(b: &Bitmap) -> (r: Bitmap)
    ensures
        tile_view(r) == tile_view(*b),
{
    let mut px: Vec<u8> = Vec::new();
    let mut i: usize = 0;
    while i < b.pixels.len()
        invariant
            0 <= i <= b.pixels@.len(),
            px@ == b.pixels@.take(i as int),
        decreases b.pixels@.len() - i,
    {
        px.push(b.pixels[i]);
        assert(b.pixels@.take(i + 1) =~= b.pixels@.take(i as int).push(b.pixels@[i as int]));
        i = i + 1;
    }
    assert(b.pixels@.take(b.pixels@.len() as int) =~= b.pixels@);
    Bitmap { width: b.width, height: b.height, pixels: px }
}

/// Packing succeeds on every tile list whose tiles are `v`.
pub open spec fn views_pack_ok(v: Seq<(u32, u32, Seq<u8>)>) -> bool {
    forall|t: Seq<Bitmap>| t.map_values(|b: Bitmap| tile_view(b)) == v ==> #[trigger] pack_ok(t)
}

/// Packing fails with `e` on every tile list whose tiles are `v`.
pub open spec fn views_pack_error(v: Seq<(u32, u32, Seq<u8>)>, e: LoadError) -> bool {
    forall|t: Seq<Bitmap>| t.map_values(|b: Bitmap| tile_view(b)) == v ==> #[trigger] pack_outcome(t, Err::<Atlas, LoadError>(e))
}

/// Every non-empty cell of the map lies in a tile set's run.
pub open spec fn cells_resolve(map: MapDesc, images: Seq<Vec<Bitmap>>) -> bool {
    forall|l: int, y: int, x: int|
        0 <= l < map.layers@.len() && 0 <= y < map.layers@[l]@.len() && 0 <= x < map.layers@[l]@[y]@.len()
            && #[trigger] map.layers@[l]@[y]@[x] != 0
            ==> lookup(set_ranges(map.tilesets@, images), map.layers@[l]@[y]@[x] as int) is Some
}

/// `e` names a non-empty id of the map that no tile set's run covers.
pub open spec fn unresolved_error(map: MapDesc, images: Seq<Vec<Bitmap>>, e: LoadError) -> bool {
    e matches LoadError::CorruptMapReference { gid } && gid != 0 && grid_holds(map.layers@, gid)
        && lookup(set_ranges(map.tilesets@, images), gid as int) is None
}

/// The flat strategy loads the map: the runs register, the gathered tiles
/// pack, and every non-empty cell resolves.
pub open spec fn flat_loads(map: MapDesc, images: Seq<Vec<Bitmap>>) -> bool {
    ranges_ok(map, images) && views_pack_ok(gathered(map, images)) && cells_resolve(map, images)
}

/// The error of the flat strategy: that of registering the runs, else that
/// of packing, else an unresolved cell.
pub open spec fn flat_error(map: MapDesc, images: Seq<Vec<Bitmap>>, e: LoadError) -> bool {
    if !ranges_ok(map, images) {
        gid_map_error(map.tilesets@, images, e)
    } else if !views_pack_ok(gathered(map, images)) {
        views_pack_error(gathered(map, images), e)
    } else {
        unresolved_error(map, images, e)
    }
}

impl FlatLoad {
    /// Registers the tile sets' runs, packs the placeholder and every tile
    /// of every set, and resolves every cell through the runs. Fails where
    /// the runs cannot be registered, the tiles cannot be packed, or a
    /// cell holds an id that no run covers.
    pub fn load(map: &MapDesc, images: &Vec<Vec<Bitmap>>) -> (r: Result<LoadedMap, LoadError>)
        requires
            load_inputs(*map, images@),
        ensures
            r is Ok <==> flat_loads(*map, images@),
            r is Ok ==> loaded_from(*map, images@, r->Ok_0),
            r matches Err(e) ==> flat_error(*map, images@, e),
    {
        let gids = match build_gid_map(&map.tilesets, images) {
            Ok(g) => g,
            Err(e) => {
                return Err(e);
            },
        };
        let tiles = gather_tiles(&map.tilesets, images, (map.tile_width, map.tile_height));
        let ghost gath = gathered(*map, images@);
        assert(tiles@.map_values(|b: Bitmap| tile_view(b)) == gath);
        let packed = pack_tiles(&tiles);
        let atlas = match packed {
            Ok(a) => a,
            Err(e) => {
                proof {
                    lemma_pack_fails(tiles@, e);
                    assert forall|t: Seq<Bitmap>| t.map_values(|b: Bitmap| tile_view(b)) == gath implies #[trigger] pack_outcome(t, Err::<Atlas, LoadError>(e)) by {
                        lemma_pack_outcome_views(t, tiles@, Err(e));
                    }
                    assert(!pack_ok(tiles@));
                }
                return Err(e);
            },
        };
        proof {
            assert(pack_outcome(tiles@, Ok::<Atlas, LoadError>(atlas)));
            assert forall|t: Seq<Bitmap>| t.map_values(|b: Bitmap| tile_view(b)) == gath implies #[trigger] pack_ok(t) by {
                lemma_pack_outcome_views(t, tiles@, Ok(atlas));
            }
        }
        let grid = match remap_grid(&gids, &map.layers) {
            Ok(g) => g,
            Err(e) => {
                proof {
                    let (l, y, x) = choose|l: int, y: int, x: int|
                        0 <= l < map.layers@.len() && 0 <= y < map.layers@[l]@.len() && 0 <= x < map.layers@[l]@[y]@.len()
                            && #[trigger] map.layers@[l]@[y]@[x] == map.layers@[l]@[y]@[x]
                            && gids.remap_spec(map.layers@[l]@[y]@[x]) is None
                            && e == (LoadError::CorruptMapReference { gid: map.layers@[l]@[y]@[x] });
                    let g = map.layers@[l]@[y]@[x];
                    assert(g != 0);
                    assert(grid_holds(map.layers@, g));
                    assert(!cells_resolve(*map, images@));
                }
                return Err(e);
            },
        };
        let r = LoadedMap { atlas, grid };
        proof {
            assert(gids@ == set_ranges(map.tilesets@, images@) && gids.wf()
                && grid_remapped(&gids, map.layers@, r.grid@));
            assert(exists|g: GidMap| g@ == set_ranges(map.tilesets@, images@) && g.wf()
                && grid_remapped(&g, map.layers@, r.grid@));
            assert(pack_outcome(tiles@, Ok::<Atlas, LoadError>(r.atlas)));
            assert(ranges_ok(*map, images@));
            assert(loaded_from(*map, images@, r));
            assert forall|l: int, y: int, x: int|
                0 <= l < map.layers@.len() && 0 <= y < map.layers@[l]@.len() && 0 <= x < map.layers@[l]@[y]@.len()
                    && #[trigger] map.layers@[l]@[y]@[x] != 0
                    implies lookup(set_ranges(map.tilesets@, images@), map.layers@[l]@[y]@[x] as int) is Some by {
                assert(gids.remap_spec(map.layers@[l]@[y]@[x]) is Some);
            }
        }
        Ok(r)
    }
}

/// Picks, behind the placeholder at index 0 of `all`, the tile of each
/// used id: the tile at its dense index, one past the placeholder. Fails
/// at the first used id that no run covers.
pub fn select_used_tiles(all: &Vec<Bitmap>, gids: &GidMap, used: &Vec<u32>) -> (r: Result<Vec<Bitmap>, LoadError>)
    requires
        gids.wf(),
        all@.len() == 1 + sum_lens(gids@),
        forall|i: int| 0 <= i < all@.len() ==> (#[trigger] all@[i]).wf(),
    ensures
        r is Ok <==> forall|n: int| 0 <= n < used@.len() ==> lookup(gids@, #[trigger] used@[n] as int) is Some,
        r matches Ok(t) ==> selected(all@.map_values(|b: Bitmap| tile_view(b)), gids@, used@, t@),
        r matches Ok(t) ==> forall|i: int| 0 <= i < t@.len() ==> (#[trigger] t@[i]).wf(),
        r matches Err(e) ==> exists|n: int| 0 <= n < used@.len() && lookup(gids@, #[trigger] used@[n] as int) is None
            && e == (LoadError::CorruptMapReference { gid: used@[n] }),
{
    let ghost views = all@.map_values(|b: Bitmap| tile_view(b));
    let mut out: Vec<Bitmap> = Vec::new();
    proof {
        lemma_sum_lens_nonneg(gids@);
    }
    let total = all.len();
    let first = copy_bitmap(&all[0]);
    assert(all@[0].wf());
    out.push(first);
    let mut n: usize = 0;
    while n < used.len()
        invariant
            gids.wf(),
            total == all@.len(),
            all@.len() == 1 + sum_lens(gids@),
            forall|i: int| 0 <= i < all@.len() ==> (#[trigger] all@[i]).wf(),
            views == all@.map_values(|b: Bitmap| tile_view(b)),
            0 <= n <= used@.len(),
            out@.len() == n + 1,
            tile_view(out@[0]) == views[0],
            forall|i: int| 0 <= i < out@.len() ==> (#[trigger] out@[i]).wf(),
            forall|k: int| 0 <= k < n ==> lookup(gids@, #[trigger] used@[k] as int) is Some,
            forall|k: int| 0 <= k < n ==> #[trigger] tile_view(out@[k + 1]) == views[1 + lookup(gids@, used@[k] as int)->Some_0],
        decreases used@.len() - n,
    {
        let g = used[n];
        match gids.map(g) {
            None => {
                return Err(LoadError::CorruptMapReference { gid: g });
            },
            Some(i) => {
                proof {
                    lemma_lookup_below_total(gids@, g as int);
                }
                let ghost before = out@;
                let copy = copy_bitmap(&all[(i + 1) as usize]);
                assert(all@[i + 1].wf());
                assert(views[i + 1] == tile_view(all@[i + 1]));
                out.push(copy);
                assert forall|k: int| 0 <= k < n + 1 implies #[trigger] tile_view(out@[k + 1]) == views[1 + lookup(gids@, used@[k] as int)->Some_0] by {
                    if k < n {
                        assert(out@[k + 1] == before[k + 1]);
                    }
                }
            },
        }
        n = n + 1;
    }
    Ok(out)
}

/// `t` holds, behind the placeholder `all[0]`, the tile of each used id.
pub open spec fn selected(all: Seq<(u32, u32, Seq<u8>)>, gids: Seq<GidRange>, used: Seq<u32>, t: Seq<Bitmap>) -> bool {
    &&& t.len() == used.len() + 1
    &&& tile_view(t[0]) == all[0]
    &&& forall|k: int| 0 <= k < used.len() ==> #[trigger] tile_view(t[k + 1]) == all[1 + lookup(gids, used[k] as int)->Some_0]
}

/// `u` is the ascending list of the non-empty ids that the map's cells hold.
pub open spec fn used_ids(map: MapDesc, u: Seq<u32>) -> bool {
    &&& strictly_ascending(u)
    &&& forall|g: u32| #[trigger] u.contains(g) <==> (g != 0 && grid_holds(map.layers@, g))
}

/// `m` is what the compressed strategy makes of the map: the atlas of the
/// placeholder and the tiles of the used ids, ascending, and every cell
/// resolved to its compacted index.
pub open spec fn compressed_from(map: MapDesc, images: Seq<Vec<Bitmap>>, m: LoadedMap) -> bool {
    exists|u: Seq<u32>, tiles: Seq<Bitmap>| {
        &&& used_ids(map, u)
        &&& selected(gathered(map, images), set_ranges(map.tilesets@, images), u, tiles)
        &&& pack_outcome(tiles, Ok::<Atlas, LoadError>(m.atlas))
        &&& exists|sp: SparseGidMap| sp@ == u && sp.wf() && grid_remapped(&sp, map.layers@, m.grid@)
    }
}

/// Every non-empty id that the cells hold lies in a tile set's run.
pub open spec fn all_resolve(map: MapDesc, images: Seq<Vec<Bitmap>>) -> bool {
    forall|g: u32| g != 0 && #[trigger] grid_holds(map.layers@, g) ==> lookup(set_ranges(map.tilesets@, images), g as int) is Some
}

/// Packing succeeds on the placeholder and the tiles of the used ids.
pub open spec fn selected_pack_ok(map: MapDesc, images: Seq<Vec<Bitmap>>) -> bool {
    forall|u: Seq<u32>, t: Seq<Bitmap>|
        used_ids(map, u) && #[trigger] selected(gathered(map, images), set_ranges(map.tilesets@, images), u, t)
            ==> pack_ok(t)
}

/// Packing the placeholder and the tiles of the used ids fails with `e`.
pub open spec fn selected_pack_error(map: MapDesc, images: Seq<Vec<Bitmap>>, e: LoadError) -> bool {
    forall|u: Seq<u32>, t: Seq<Bitmap>|
        used_ids(map, u) && #[trigger] selected(gathered(map, images), set_ranges(map.tilesets@, images), u, t)
            ==> pack_outcome(t, Err::<Atlas, LoadError>(e))
}

/// The compressed strategy loads the map: the runs register, every used
/// id lies in a run, and the tiles of the used ids pack.
pub open spec fn compressed_loads(map: MapDesc, images: Seq<Vec<Bitmap>>) -> bool {
    ranges_ok(map, images) && all_resolve(map, images) && selected_pack_ok(map, images)
}

/// The error of the compressed strategy: that of registering the runs,
/// else an unresolved used id, else that of packing.
pub open spec fn compressed_error(map: MapDesc, images: Seq<Vec<Bitmap>>, e: LoadError) -> bool {
    if !ranges_ok(map, images) {
        gid_map_error(map.tilesets@, images, e)
    } else if !all_resolve(map, images) {
        unresolved_error(map, images, e)
    } else {
        selected_pack_error(map, images, e)
    }
}

/// Selections of the used ids' tiles all hold the same tiles.
proof fn lemma_selected_views(all: Seq<(u32, u32, Seq<u8>)>, gids: Seq<GidRange>, used: Seq<u32>, t1: Seq<Bitmap>, t2: Seq<Bitmap>)
    requires
        selected(all, gids, used, t1),
        selected(all, gids, used, t2),
    ensures
        t1.map_values(|b: Bitmap| tile_view(b)) == t2.map_values(|b: Bitmap| tile_view(b)),
{
    assert forall|i: int| 0 <= i < t1.len() implies tile_view(t1[i]) == tile_view(t2[i]) by {
        if i > 0 {
            assert(tile_view(t1[(i - 1) + 1]) == tile_view(t2[(i - 1) + 1]));
        }
    }
    assert(t1.map_values(|b: Bitmap| tile_view(b)) =~= t2.map_values(|b: Bitmap| tile_view(b)));
}

impl CompressedLoad {
    /// Registers the tile sets' runs, packs the placeholder and the tiles
    /// of the ids that the cells use, ascending, and resolves every cell
    /// to its compacted index. Fails where the runs cannot be registered,
    /// a used id has no tile, or the tiles cannot be packed.
    pub fn load(map: &MapDesc, images: &Vec<Vec<Bitmap>>) -> (r: Result<LoadedMap, LoadError>)
        requires
            load_inputs(*map, images@),
        ensures
            r is Ok <==> compressed_loads(*map, images@),
            r is Ok ==> compressed_from(*map, images@, r->Ok_0),
            r matches Err(e) ==> compressed_error(*map, images@, e),
    {
        let gids = match build_gid_map(&map.tilesets, images) {
            Ok(g) => g,
            Err(e) => {
                return Err(e);
            },
        };
        let all = gather_tiles(&map.tilesets, images, (map.tile_width, map.tile_height));
        proof {
            lemma_total_tiles(map.tilesets@, images@);
            assert(all@.map_values(|b: Bitmap| tile_view(b)).len() == all@.len());
        }
        let sparse = SparseGidMap::from_layers(&map.layers);
        let tiles = match select_used_tiles(&all, &gids, sparse.used()) {
            Ok(t) => t,
            Err(e) => {
                proof {
                    let n = choose|n: int| 0 <= n < sparse@.len() && lookup(gids@, #[trigger] sparse@[n] as int) is None
                        && e == (LoadError::CorruptMapReference { gid: sparse@[n] });
                    assert(sparse@.contains(sparse@[n]));
                    assert(!all_resolve(*map, images@));
                }
                return Err(e);
            },
        };
        let ghost rs = set_ranges(map.tilesets@, images@);
        proof {
            assert forall|g: u32| g != 0 && #[trigger] grid_holds(map.layers@, g) implies lookup(rs, g as int) is Some by {
                assert(sparse@.contains(g));
                let k = choose|k: int| 0 <= k < sparse@.len() && sparse@[k] == g;
                assert(lookup(gids@, sparse@[k] as int) is Some);
            }
            assert(all_resolve(*map, images@));
            assert(gathered(*map, images@) == all@.map_values(|b: Bitmap| tile_view(b)));
            assert(used_ids(*map, sparse@));
            assert(selected(gathered(*map, images@), rs, sparse@, tiles@));
        }
        let packed = pack_tiles(&tiles);
        let atlas = match packed {
            Ok(a) => a,
            Err(e) => {
                proof {
                    lemma_pack_fails(tiles@, e);
                    assert forall|u: Seq<u32>, t: Seq<Bitmap>|
                        used_ids(*map, u) && #[trigger] selected(gathered(*map, images@), rs, u, t)
                        implies pack_outcome(t, Err::<Atlas, LoadError>(e)) by {
                        lemma_ascending_unique(u, sparse@);
                        lemma_selected_views(gathered(*map, images@), rs, u, t, tiles@);
                        lemma_pack_outcome_views(t, tiles@, Err(e));
                    }
                    assert(!selected_pack_ok(*map, images@));
                }
                return Err(e);
            },
        };
        proof {
            assert(pack_outcome(tiles@, Ok::<Atlas, LoadError>(atlas)));
            assert forall|u: Seq<u32>, t: Seq<Bitmap>|
                used_ids(*map, u) && #[trigger] selected(gathered(*map, images@), rs, u, t)
                implies pack_ok(t) by {
                lemma_ascending_unique(u, sparse@);
                lemma_selected_views(gathered(*map, images@), rs, u, t, tiles@);
                lemma_pack_outcome_views(t, tiles@, Ok(atlas));
            }
        }
        let grid = match remap_grid(&sparse, &map.layers) {
            Ok(g) => g,
            Err(e) => {
                proof {
                    let (l, y, x) = choose|l: int, y: int, x: int|
                        0 <= l < map.layers@.len() && 0 <= y < map.layers@[l]@.len() && 0 <= x < map.layers@[l]@[y]@.len()
                            && #[trigger] map.layers@[l]@[y]@[x] == map.layers@[l]@[y]@[x]
                            && sparse.remap_spec(map.layers@[l]@[y]@[x]) is None
                            && e == (LoadError::CorruptMapReference { gid: map.layers@[l]@[y]@[x] });
                    let g = map.layers@[l]@[y]@[x];
                    assert(grid_holds(map.layers@, g));
                    assert(sparse@.contains(g));
                    let k = choose|k: int| 0 <= k < sparse@.len() && sparse@[k] == g;
                    assert(crate::usage::sparse_index(sparse@, g) is Some);
                }
                return Err(e);
            },
        };
        let r = LoadedMap { atlas, grid };
        proof {
            assert(exists|sp: SparseGidMap| sp@ == sparse@ && sp.wf() && grid_remapped(&sp, map.layers@, r.grid@));
            assert(compressed_from(*map, images@, r));
        }
        Ok(r)
    }
}

/// `m` is what the flat strategy makes of the map: the atlas of the
/// gathered tiles, and every cell resolved through the tile sets' runs.
pub open spec fn loaded_from(map: MapDesc, images: Seq<Vec<Bitmap>>, m: LoadedMap) -> bool {
    exists|tiles: Seq<Bitmap>| {
        &&& tiles.map_values(|b: Bitmap| tile_view(b)) == gathered(map, images)
        &&& pack_outcome(tiles, Ok::<Atlas, LoadError>(m.atlas))
        &&& exists|g: GidMap| g@ == set_ranges(map.tilesets@, images) && g.wf()
            && grid_remapped(&g, map.layers@, m.grid@)
    }
}

/// Packing the tiles succeeds.
pub open spec fn pack_ok(tiles: Seq<Bitmap>) -> bool {
    exists|a: Atlas| pack_outcome(tiles, Ok::<Atlas, LoadError>(a))
}

/// Packing that fails admits no successful outcome.
proof fn lemma_pack_fails(tiles: Seq<Bitmap>, e: LoadError)
    requires
        pack_outcome(tiles, Err(e)),
    ensures
        !pack_ok(tiles),
{
    if pack_ok(tiles) {
        let a = choose|a: Atlas| pack_outcome(tiles, Ok::<Atlas, LoadError>(a));
    }
}

} // verus!
