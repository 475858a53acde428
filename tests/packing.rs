use tile_atlas::atlas::{pack_general, pack_tiles};
use tile_atlas::bitmap::Bitmap;
use tile_atlas::encode::AmethystOrderedFormat;
use tile_atlas::error::LoadError;
use tile_atlas::packing::{compose_column, SpriteAnchor, SpriteData, TilePacker};

fn solid(w: u32, h: u32, v: u8) -> Bitmap {
    Bitmap { width: w, height: h, pixels: vec![v; (4 * w * h) as usize] }
}

/// A tile whose every byte differs from those of other tiles with another seed.
fn patterned(w: u32, h: u32, seed: u8) -> Bitmap {
    let n = (4 * w * h) as usize;
    Bitmap { width: w, height: h, pixels: (0..n).map(|i| seed.wrapping_mul(31).wrapping_add(i as u8)).collect() }
}

#[test]
fn tile_packer_stacks_in_a_column() {
    let sprites = vec![
        SpriteData { id: 4, dimensions: (16, 8) },
        SpriteData { id: 9, dimensions: (16, 8) },
        SpriteData { id: 2, dimensions: (16, 8) },
    ];
    let r = TilePacker::pack(&sprites);
    assert_eq!(r.dimensions, (16, 24));
    let got: Vec<(usize, (u32, u32), (u32, u32))> =
        r.anchors.iter().map(|a| (a.id, a.position, a.dimensions)).collect();
    assert_eq!(got, vec![(4, (0, 0), (16, 8)), (9, (0, 8), (16, 8)), (2, (0, 16), (16, 8))]);
}

#[test]
fn tile_packer_on_nothing() {
    let r = TilePacker::pack(&Vec::new());
    assert_eq!(r.dimensions, (0, 0));
    assert!(r.anchors.is_empty());
}

#[test]
fn column_atlas_round_trips_every_tile() {
    let tiles: Vec<Bitmap> = (0..5).map(|i| patterned(3, 2, i)).collect();
    let atlas = pack_tiles(&tiles).unwrap();
    assert_eq!((atlas.image.width, atlas.image.height), (3, 10));
    assert_eq!(atlas.anchors.len(), 5);
    for (i, t) in tiles.iter().enumerate() {
        let a = atlas.anchors[i];
        assert_eq!(a.id, i);
        assert_eq!(a.position, (0, 2 * i as u32));
        let back = atlas.image.sub_image_bytes(a.position.0, a.position.1, a.dimensions.0, a.dimensions.1);
        assert_eq!(back, t.pixels);
    }
}

#[test]
fn compose_column_concatenates() {
    let tiles = vec![solid(1, 1, 1), solid(1, 1, 2)];
    let b = compose_column(&tiles, 1, 1);
    assert_eq!((b.width, b.height), (1, 2));
    assert_eq!(b.pixels, vec![1, 1, 1, 1, 2, 2, 2, 2]);
}

#[test]
fn pack_nothing_gives_empty_atlas() {
    let atlas = pack_tiles(&Vec::new()).unwrap();
    assert_eq!((atlas.image.width, atlas.image.height), (0, 0));
    assert!(atlas.anchors.is_empty());
}

#[test]
fn mixed_sizes_go_through_the_general_packer() {
    let tiles = vec![patterned(4, 4, 1), patterned(2, 2, 2), patterned(2, 6, 3), patterned(1, 1, 4)];
    let atlas = pack_tiles(&tiles).unwrap();
    assert_eq!(atlas.anchors.len(), 4);
    let mut right = 0;
    let mut bottom = 0;
    for (i, t) in tiles.iter().enumerate() {
        let a = atlas.anchors[i];
        assert_eq!(a.id, i);
        assert_eq!(a.dimensions, (t.width, t.height));
        right = right.max(a.position.0 + t.width);
        bottom = bottom.max(a.position.1 + t.height);
    }
    assert_eq!((atlas.image.width, atlas.image.height), (right, bottom));
    for i in 0..tiles.len() {
        for j in 0..tiles.len() {
            if i < j {
                let (a, b) = (atlas.anchors[i], atlas.anchors[j]);
                let apart = a.position.0 + a.dimensions.0 <= b.position.0
                    || b.position.0 + b.dimensions.0 <= a.position.0
                    || a.position.1 + a.dimensions.1 <= b.position.1
                    || b.position.1 + b.dimensions.1 <= a.position.1;
                assert!(apart, "tiles {} and {} overlap", i, j);
            }
        }
    }
    for (i, t) in tiles.iter().enumerate() {
        let a = atlas.anchors[i];
        let back = atlas.image.sub_image_bytes(a.position.0, a.position.1, t.width, t.height);
        assert_eq!(back, t.pixels);
    }
}

#[test]
fn general_packer_rejects_huge_sums() {
    let tiles = vec![solid(20000, 1, 0), solid(20000, 1, 0)];
    assert_eq!(pack_general(&tiles).unwrap_err(), LoadError::AtlasTooLarge);
}

#[test]
fn encode_sorts_by_correlation_id() {
    let anchors = vec![
        SpriteAnchor { id: 2, position: (0, 0), dimensions: (4, 4) },
        SpriteAnchor { id: 0, position: (4, 0), dimensions: (2, 2) },
        SpriteAnchor { id: 1, position: (4, 2), dimensions: (2, 3) },
    ];
    let regions = AmethystOrderedFormat::encode((6, 5), &anchors);
    let got: Vec<(u32, u32, u32, u32)> = regions.iter().map(|r| (r.left, r.top, r.width, r.height)).collect();
    assert_eq!(got, vec![(4, 0, 2, 2), (4, 2, 2, 3), (0, 0, 4, 4)]);
    assert!(regions.iter().all(|r| (r.atlas_width, r.atlas_height) == (6, 5)));
}
