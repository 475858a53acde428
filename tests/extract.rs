use tile_atlas::bitmap::Bitmap;
use tile_atlas::decode::{bitmap_from_decoded, open_image};
use tile_atlas::error::LoadError;
use tile_atlas::extract::{pack_image, TileSpec};
use tile_atlas::format::{shift_path, TiledFormat};

/// A bitmap whose pixel (x, y) is (x, y, 7, 255).
fn gradient(w: u32, h: u32) -> Bitmap {
    let mut pixels = Vec::new();
    for y in 0..h {
        for x in 0..w {
            pixels.extend_from_slice(&[x as u8, y as u8, 7, 255]);
        }
    }
    Bitmap { width: w, height: h, pixels }
}

fn spec(w: u32, h: u32, margin: u32, spacing: u32) -> TileSpec {
    TileSpec { width: w, height: h, margin, spacing }
}

#[test]
fn tile_count_without_margin() {
    let img = gradient(48, 32);
    assert_eq!(pack_image(&img, &spec(16, 16, 0, 0)).len(), 6);
    // (50 + 2) / (16 + 2) = 2 columns, (34 + 2) / (16 + 2) = 2 rows
    let img = gradient(50, 34);
    assert_eq!(pack_image(&img, &spec(16, 16, 0, 2)).len(), 4);
    // (52 + 2) / 18 = 3 columns
    let img = gradient(52, 16);
    assert_eq!(pack_image(&img, &spec(16, 16, 0, 2)).len(), 3);
}

#[test]
fn tiles_come_in_row_major_order() {
    let img = gradient(6, 4);
    let tiles = pack_image(&img, &spec(2, 2, 0, 0));
    assert_eq!(tiles.len(), 6);
    let origins: Vec<(u8, u8)> = tiles.iter().map(|t| (t.pixels[0], t.pixels[1])).collect();
    assert_eq!(origins, vec![(0, 0), (2, 0), (4, 0), (0, 2), (2, 2), (4, 2)]);
}

#[test]
fn tile_bytes_are_the_sub_rectangle() {
    let img = gradient(4, 4);
    let tiles = pack_image(&img, &spec(2, 2, 1, 0));
    assert_eq!(tiles.len(), 1);
    let t = &tiles[0];
    assert_eq!((t.width, t.height), (2, 2));
    assert_eq!(
        t.pixels,
        vec![1, 1, 7, 255, 2, 1, 7, 255, 1, 2, 7, 255, 2, 2, 7, 255]
    );
}

#[test]
fn margin_and_spacing_place_tiles() {
    let img = gradient(10, 5);
    let tiles = pack_image(&img, &spec(3, 3, 1, 1));
    // x = 1, 5 fit (5 + 3 <= 10); x = 9 does not; y = 1 fits, y = 5 does not
    assert_eq!(tiles.len(), 2);
    assert_eq!((tiles[0].pixels[0], tiles[0].pixels[1]), (1, 1));
    assert_eq!((tiles[1].pixels[0], tiles[1].pixels[1]), (5, 1));
}

#[test]
fn margin_counts_once() {
    // margin 1, 33 wide: tiles at x = 1 and x = 17 both fit
    let img = gradient(33, 16);
    assert_eq!(pack_image(&img, &spec(16, 16, 1, 0)).len(), 0);
    let img = gradient(33, 17);
    assert_eq!(pack_image(&img, &spec(16, 16, 1, 0)).len(), 2);
}

#[test]
fn image_smaller_than_a_tile_has_no_tiles() {
    let img = gradient(8, 8);
    assert!(pack_image(&img, &spec(16, 16, 0, 0)).is_empty());
}

#[test]
fn sub_image_bytes_reads_rows() {
    let img = gradient(3, 3);
    assert_eq!(img.sub_image_bytes(1, 1, 2, 1), vec![1, 1, 7, 255, 2, 1, 7, 255]);
    assert!(img.sub_image_bytes(3, 0, 0, 3).is_empty());
}

#[test]
fn transparency_key_zeroes_alpha_only() {
    let mut b = Bitmap { width: 2, height: 1, pixels: vec![10, 20, 30, 255, 10, 20, 31, 255] };
    b.apply_transparency((10, 20, 30));
    assert_eq!(b.pixels, vec![10, 20, 30, 0, 10, 20, 31, 255]);
}

#[test]
fn decoded_outcomes() {
    assert_eq!(bitmap_from_decoded(None, None).unwrap_err(), LoadError::ImageDecodeError);
    assert_eq!(bitmap_from_decoded(Some(None), None).unwrap_err(), LoadError::UnsupportedPixelFormat);
    assert_eq!(
        bitmap_from_decoded(Some(Some((2, 2, vec![0; 15]))), None).unwrap_err(),
        LoadError::ImageDecodeError
    );
    let b = bitmap_from_decoded(Some(Some((1, 1, vec![1, 2, 3, 4]))), Some((1, 2, 3))).unwrap();
    assert_eq!((b.width, b.height, b.pixels), (1, 1, vec![1, 2, 3, 0]));
}

fn png(img: image::DynamicImage) -> Vec<u8> {
    let mut bytes = Vec::new();
    img.write_to(&mut bytes, image::ImageOutputFormat::Png).unwrap();
    bytes
}

#[test]
fn open_image_decodes_rgba_png_and_applies_key() {
    let raw = vec![255, 0, 255, 255, 1, 2, 3, 255];
    let img = image::RgbaImage::from_raw(2, 1, raw).unwrap();
    let bytes = png(image::DynamicImage::ImageRgba8(img));
    let b = open_image(&bytes, Some((255, 0, 255))).unwrap();
    assert_eq!((b.width, b.height), (2, 1));
    assert_eq!(b.pixels, vec![255, 0, 255, 0, 1, 2, 3, 255]);
    let plain = TiledFormat.import_simple(bytes).unwrap();
    assert_eq!(plain.pixels, vec![255, 0, 255, 255, 1, 2, 3, 255]);
}

#[test]
fn open_image_rejects_garbage_and_non_rgba() {
    assert_eq!(open_image(&vec![1, 2, 3, 4, 5], None).unwrap_err(), LoadError::ImageDecodeError);
    let rgb = image::RgbImage::from_raw(1, 1, vec![1, 2, 3]).unwrap();
    let bytes = png(image::DynamicImage::ImageRgb8(rgb));
    assert_eq!(open_image(&bytes, None).unwrap_err(), LoadError::UnsupportedPixelFormat);
}

#[test]
fn shift_path_replaces_file_name() {
    assert_eq!(shift_path("maps/level.tmx", "tiles.tsx"), "maps/tiles.tsx");
    assert_eq!(shift_path("maps/sets/a.tsx", "img/a.png"), "maps/sets/img/a.png");
    assert_eq!(shift_path("level.tmx", "tiles.tsx"), "tiles.tsx");
}

#[test]
fn format_name() {
    assert_eq!(TiledFormat.name(), "Tile Map");
}
