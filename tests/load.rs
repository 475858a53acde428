use tile_atlas::bitmap::Bitmap;
use tile_atlas::cache::Tilesets;
use tile_atlas::error::LoadError;
use tile_atlas::extract::TileSpec;
use tile_atlas::ranges::build_gid_map;
use tile_atlas::source::{fetch_images, pack_tileset, pack_tileset_vec, ImageSource};
use tile_atlas::strategy::MapDesc;
use tile_atlas::tileset::{ImageRef, TileSetDesc};
use tile_atlas::{CompressedLoad, FlatLoad, TileGid, TileMapPrefab, TileSetPrefab};

/// A sheet of `cols` x `rows` tiles of 16 x 16, tile `k` filled with `k + 1`.
fn sheet(cols: u32, rows: u32) -> Bitmap {
    let (w, h) = (cols * 16, rows * 16);
    let mut pixels = Vec::new();
    for y in 0..h {
        for x in 0..w {
            let k = (y / 16) * cols + x / 16;
            pixels.extend_from_slice(&[k as u8 + 1; 4]);
        }
    }
    Bitmap { width: w, height: h, pixels }
}

fn tileset(name: &str, first_gid: u32, images: usize) -> TileSetDesc {
    TileSetDesc {
        name: name.to_string(),
        first_gid,
        spec: TileSpec { width: 16, height: 16, margin: 0, spacing: 0 },
        images: (0..images)
            .map(|i| ImageRef { source: format!("{}-{}.png", name, i), transparent_colour: None })
            .collect(),
    }
}

fn map(sets: Vec<TileSetDesc>, layers: Vec<Vec<Vec<u32>>>) -> MapDesc {
    MapDesc { width: 2, height: 2, tile_width: 16, tile_height: 16, tilesets: sets, layers }
}

#[test]
fn flat_load_scenario() {
    let m = map(vec![tileset("ground", 1, 1)], vec![vec![vec![1, 2], vec![4, 0]]]);
    let images = vec![vec![sheet(3, 2)]];
    let loaded = FlatLoad::load(&m, &images).unwrap();
    assert_eq!(loaded.grid, vec![vec![vec![0, 1], vec![3, 0]]]);
    assert_eq!(loaded.atlas.anchors.len(), 7);
    assert_eq!((loaded.atlas.image.width, loaded.atlas.image.height), (16, 112));
    // the placeholder is transparent, tile k follows it
    let a = loaded.atlas.anchors[0];
    assert!(loaded.atlas.image.sub_image_bytes(a.position.0, a.position.1, 16, 16).iter().all(|b| *b == 0));
    let a = loaded.atlas.anchors[4];
    assert!(loaded.atlas.image.sub_image_bytes(a.position.0, a.position.1, 16, 16).iter().all(|b| *b == 4));
}

#[test]
fn compressed_load_packs_only_used_tiles() {
    let m = map(vec![tileset("ground", 1, 1)], vec![vec![vec![5, 2], vec![5, 0]]]);
    let images = vec![vec![sheet(3, 2)]];
    let loaded = CompressedLoad::load(&m, &images).unwrap();
    assert_eq!(loaded.grid, vec![vec![vec![2, 1], vec![2, 0]]]);
    assert_eq!(loaded.atlas.anchors.len(), 3);
    let img = &loaded.atlas.image;
    let fill = |i: usize| {
        let a = loaded.atlas.anchors[i];
        img.sub_image_bytes(a.position.0, a.position.1, 16, 16)[0]
    };
    assert_eq!((fill(0), fill(1), fill(2)), (0, 2, 5));
}

#[test]
fn two_sets_resolve_through_their_runs() {
    let m = map(
        vec![tileset("a", 1, 1), tileset("b", 100, 2)],
        vec![vec![vec![1, 100], vec![101, 103]]],
    );
    let images = vec![vec![sheet(2, 1)], vec![sheet(1, 1), sheet(3, 1)]];
    let loaded = FlatLoad::load(&m, &images).unwrap();
    assert_eq!(loaded.grid, vec![vec![vec![0, 2], vec![3, 5]]]);
    assert_eq!(loaded.atlas.anchors.len(), 1 + 2 + 4);
}

#[test]
fn colliding_tile_sets_abort_the_load() {
    let m = map(vec![tileset("a", 1, 1), tileset("b", 4, 1)], vec![vec![vec![1]]]);
    let images = vec![vec![sheet(3, 2)], vec![sheet(1, 1)]];
    assert_eq!(FlatLoad::load(&m, &images).unwrap_err(), LoadError::GidRangeCollision { tileset: 1 });
    assert_eq!(CompressedLoad::load(&m, &images).unwrap_err(), LoadError::GidRangeCollision { tileset: 1 });
    assert_eq!(build_gid_map(&m.tilesets, &images).unwrap_err(), LoadError::GidRangeCollision { tileset: 1 });
}

#[test]
fn unknown_id_is_a_corrupt_map() {
    let m = map(vec![tileset("a", 1, 1)], vec![vec![vec![1, 9]]]);
    let images = vec![vec![sheet(3, 2)]];
    assert_eq!(FlatLoad::load(&m, &images).unwrap_err(), LoadError::CorruptMapReference { gid: 9 });
    assert_eq!(CompressedLoad::load(&m, &images).unwrap_err(), LoadError::CorruptMapReference { gid: 9 });
}

#[test]
fn pack_tileset_vec_puts_placeholder_first() {
    let sets = vec![tileset("a", 1, 1)];
    let images = vec![vec![sheet(2, 1)]];
    let atlas = pack_tileset_vec(&sets, &images, (16, 16)).unwrap();
    assert_eq!(atlas.anchors.len(), 3);
    assert_eq!(atlas.image.pixels[0], 0);
    assert_eq!(atlas.image.sub_image_bytes(0, 16, 16, 16)[0], 1);
    assert_eq!(atlas.image.sub_image_bytes(0, 32, 16, 16)[0], 2);
}

#[test]
fn pack_tileset_has_no_placeholder() {
    let set = tileset("a", 1, 2);
    let atlas = pack_tileset(&set, &vec![sheet(2, 1), sheet(1, 1)]).unwrap();
    assert_eq!(atlas.anchors.len(), 3);
    assert_eq!(atlas.image.sub_image_bytes(0, 0, 16, 16)[0], 1);
    assert_eq!(atlas.image.sub_image_bytes(0, 32, 16, 16)[0], 1);
}

#[test]
fn cached_tileset_packs_once() {
    let mut cache = Tilesets::new();
    let name = "ground".to_string();
    assert_eq!(cache.claim(&name, 7), (7, true));
    assert_eq!(cache.claim(&name, 8), (7, false));
    assert_eq!(cache.get(&name), Some(7));
    assert_eq!(cache.get(&"other".to_string()), None);
}

#[test]
fn push_replaces_and_adds() {
    let mut cache = Tilesets::new();
    cache.push("a".to_string(), 1);
    cache.push("b".to_string(), 2);
    cache.push("a".to_string(), 3);
    assert_eq!(cache.get(&"a".to_string()), Some(3));
    assert_eq!(cache.get(&"b".to_string()), Some(2));
}

fn png_of(w: u32, h: u32, fill: u8) -> Vec<u8> {
    let img = image::RgbaImage::from_raw(w, h, vec![fill; (w * h * 4) as usize]).unwrap();
    let mut bytes = Vec::new();
    image::DynamicImage::ImageRgba8(img).write_to(&mut bytes, image::ImageOutputFormat::Png).unwrap();
    bytes
}

#[test]
fn tileset_prefab_resolves_through_cache() {
    let source = Memory(vec![("ground-0.png".to_string(), png_of(32, 16, 3))]);
    let mut cache = Tilesets::new();
    let mut first = TileSetPrefab::TileSet(tileset("ground", 1, 1));
    let mut second = TileSetPrefab::TileSet(tileset("ground", 1, 1));
    assert_eq!(first.add_to_entity(), None);
    let atlas = first.load_sub_assets(&mut cache, &source, 11).unwrap().unwrap();
    assert_eq!(atlas.anchors.len(), 2);
    assert!(second.load_sub_assets(&mut cache, &source, 12).unwrap().is_none());
    assert_eq!(first.add_to_entity(), Some(11));
    assert_eq!(second.add_to_entity(), Some(11));
    assert!(first.load_sub_assets(&mut cache, &source, 13).unwrap().is_none());
}

#[test]
fn tileset_prefab_failure_changes_nothing() {
    let mut cache = Tilesets::new();
    let mut prefab = TileSetPrefab::TileSet(tileset("ground", 1, 1));
    assert_eq!(prefab.load_sub_assets(&mut cache, &Memory(vec![]), 11).unwrap_err(), LoadError::SourceNotFound);
    assert!(matches!(prefab, TileSetPrefab::TileSet(_)));
    assert_eq!(cache.get(&"ground".to_string()), None);
}

#[test]
fn release_undoes_a_claim() {
    let mut cache = Tilesets::new();
    cache.push("a".to_string(), 1);
    let name = "b".to_string();
    assert_eq!(cache.claim(&name, 5), (5, true));
    cache.release(&name);
    assert_eq!(cache.get(&name), None);
    assert_eq!(cache.get(&"a".to_string()), Some(1));
    assert_eq!(cache.claim(&name, 6), (6, true));
}

#[test]
fn collision_is_found_in_either_order() {
    let images = vec![vec![sheet(4, 4)], vec![sheet(4, 4)]];
    let ab = map(vec![tileset("a", 0, 1), tileset("c", 8, 1)], vec![vec![vec![1]]]);
    let ba = map(vec![tileset("c", 8, 1), tileset("a", 0, 1)], vec![vec![vec![1]]]);
    assert_eq!(FlatLoad::load(&ab, &images).unwrap_err(), LoadError::GidRangeCollision { tileset: 1 });
    assert_eq!(FlatLoad::load(&ba, &images).unwrap_err(), LoadError::GidRangeCollision { tileset: 1 });
    let apart = map(vec![tileset("a", 0, 1), tileset("c", 16, 1)], vec![vec![vec![1, 17]]]);
    assert!(FlatLoad::load(&apart, &images).is_ok());
}

#[test]
fn fetching_nothing_succeeds() {
    let sets = vec![tileset("a", 1, 0), tileset("b", 10, 0)];
    let images = fetch_images(&sets, &Memory(vec![])).unwrap();
    assert_eq!(images.len(), 2);
    assert!(images.iter().all(|v| v.is_empty()));
}

#[test]
fn map_prefab_loads_once() {
    let m = map(vec![tileset("ground", 1, 1)], vec![vec![vec![1, 2], vec![4, 0]]]);
    let images = vec![vec![sheet(3, 2)]];
    let mut prefab = TileMapPrefab::Described(m);
    assert!(prefab.add_to_entity().is_none());
    assert_eq!(prefab.load_sub_assets(&images, false), Ok(true));
    assert_eq!(prefab.add_to_entity().unwrap().grid, vec![vec![vec![0, 1], vec![3, 0]]]);
    assert_eq!(prefab.load_sub_assets(&images, false), Ok(false));
}

#[test]
fn map_prefab_keeps_description_on_failure() {
    let m = map(vec![tileset("ground", 1, 1)], vec![vec![vec![99]]]);
    let images = vec![vec![sheet(3, 2)]];
    let mut prefab = TileMapPrefab::Described(m);
    assert_eq!(prefab.load_sub_assets(&images, true), Err(LoadError::CorruptMapReference { gid: 99 }));
    assert!(matches!(prefab, TileMapPrefab::Described(_)));
}

struct Memory(Vec<(String, Vec<u8>)>);

impl ImageSource for Memory {
    fn load(&self, path: &String) -> Option<Vec<u8>> {
        self.0.iter().find(|(p, _)| p == path).map(|(_, b)| b.clone())
    }
}

#[test]
fn missing_image_is_source_not_found() {
    let sets = vec![tileset("a", 1, 1)];
    assert_eq!(fetch_images(&sets, &Memory(vec![])).unwrap_err(), LoadError::SourceNotFound);
    let garbage = Memory(vec![("a-0.png".to_string(), vec![0, 1, 2])]);
    assert_eq!(fetch_images(&sets, &garbage).unwrap_err(), LoadError::ImageDecodeError);
}

#[test]
fn fetched_images_are_decoded() {
    let img = image::RgbaImage::from_raw(16, 16, vec![9; 16 * 16 * 4]).unwrap();
    let mut bytes = Vec::new();
    image::DynamicImage::ImageRgba8(img).write_to(&mut bytes, image::ImageOutputFormat::Png).unwrap();
    let sets = vec![tileset("a", 1, 1)];
    let images = fetch_images(&sets, &Memory(vec![("a-0.png".to_string(), bytes)])).unwrap();
    assert_eq!(images.len(), 1);
    assert_eq!((images[0][0].width, images[0][0].height), (16, 16));
}

#[test]
fn tile_gid_shows_its_index() {
    let g = TileGid::from(5usize);
    assert_eq!(g.sprite(), Some(5));
    assert_eq!(TileGid::default().sprite(), Some(0));
}
