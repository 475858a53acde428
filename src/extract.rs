//! Slicing a tile sheet into tiles, row after row.
use vstd::prelude::*;
use vstd::arithmetic::div_mod::{lemma_fundamental_div_mod, lemma_fundamental_div_mod_converse};
use crate::bitmap::{Bitmap, sub_image_spec};

verus! {

/// The grid geometry of a tile sheet, in pixels: tile size, border before
/// the first tile, and gap between tiles.
#[derive(Clone, Copy, Debug, PartialEq, Eq, Structural)]
pub struct TileSpec {
    pub width: u32,
    pub height: u32,
    pub margin: u32,
    pub spacing: u32,
}

/// How many tiles fit along an axis `extent` pixels long: the number of
/// steps `k` with `margin + k * (tile + spacing) + tile <= extent`.
pub open spec fn tiles_along(extent: int, margin: int, tile: int, spacing: int) -> int {
    if extent < margin + tile {
        0
    } else {
        (extent - margin - tile) / (tile + spacing) + 1
    }
}

/// Step `k` fits exactly when it is below `tiles_along`.
pub proof fn lemma_tiles_along(extent: int, margin: int, tile: int, spacing: int, k: int)
    requires
        tile > 0,
        spacing >= 0,
        margin >= 0,
        k >= 0,
    ensures
        (k < tiles_along(extent, margin, tile, spacing)) <==> (margin + k * (tile + spacing) + tile
            <= extent),
{
    let d = tile + spacing;
    assert(k * d >= 0) by (nonlinear_arith)
        requires
            k >= 0,
            d > 0,
    ;
    if extent >= margin + tile {
        let e = extent - margin - tile;
        lemma_fundamental_div_mod(e, d);
        let q = e / d;
        let r = e % d;
        if k <= q {
            assert(k * d <= e) by (nonlinear_arith)
                requires
                    k <= q,
                    d > 0,
                    e == d * q + r,
                    0 <= r,
            ;
        } else {
            assert(k * d > e) by (nonlinear_arith)
                requires
                    k >= q + 1,
                    d > 0,
                    e == d * q + r,
                    r < d,
            ;
        }
    }
}

/// With no margin, an image holds `(w + spacing) / (tile_w + spacing)`
/// columns times `(h + spacing) / (tile_h + spacing)` rows of tiles.
pub proof fn lemma_tile_count_without_margin(img_w: int, img_h: int, spec: TileSpec)
    requires
        spec.width > 0,
        spec.height > 0,
        spec.margin == 0,
        img_w >= 0,
        img_h >= 0,
    ensures
        tiles_along(img_w, 0, spec.width as int, spec.spacing as int) * tiles_along(
            img_h,
            0,
            spec.height as int,
            spec.spacing as int,
        ) == ((img_w + spec.spacing) / (spec.width + spec.spacing)) * ((img_h + spec.spacing) / (
        spec.height + spec.spacing)),
{
    lemma_count_without_margin(img_w, spec.width as int, spec.spacing as int);
    lemma_count_without_margin(img_h, spec.height as int, spec.spacing as int);
}

proof fn lemma_count_without_margin(e: int, t: int, s: int)
    requires
        t > 0,
        s >= 0,
        e >= 0,
    ensures
        tiles_along(e, 0, t, s) == (e + s) / (t + s),
{
    let d = t + s;
    if e < t {
        lemma_fundamental_div_mod_converse(e + s, d, 0, e + s);
    } else {
        lemma_fundamental_div_mod(e - t, d);
        let q = (e - t) / d;
        let r = (e - t) % d;
        assert((q + 1) * d == d * q + d) by (nonlinear_arith);
        lemma_fundamental_div_mod_converse(e + s, d, q + 1, r);
    }
}

/// How many tiles fit along an axis.
pub(crate) fn tiles_along_exec(extent: u32, margin: u32, tile: u32, spacing: u32) -> (r: u32)
    requires
        tile > 0,
    ensures
        r == tiles_along(extent as int, margin as int, tile as int, spacing as int),
{
    if (extent as u64) < margin as u64 + tile as u64 {
        0
    } else {
        let q = (extent - margin - tile) as u64 / (tile as u64 + spacing as u64);
        assert(q <= extent) by {
            vstd::arithmetic::div_mod::lemma_div_is_ordered_by_denominator(
                (extent - margin - tile) as int,
                1,
                (tile + spacing) as int,
            );
        }
        (q + 1) as u32
    }
}

/// The position of the tile at index `i` of the row-major order of a
/// sheet that is `cols` tiles wide.
pub open spec fn tile_origin(spec: TileSpec, cols: int, i: int) -> (int, int) {
    (
        spec.margin + (i % cols) * (spec.width + spec.spacing),
        spec.margin + (i / cols) * (spec.height + spec.spacing),
    )
}

/// Slices the sheet into tiles in row-major order: rows from top to bottom,
/// each from left to right, every tile that fits whole.
pub fn pack_image(image: &Bitmap, spec: &TileSpec) -> (r: Vec<Bitmap>)
    requires
        image.wf(),
        spec.width > 0,
        spec.height > 0,
    ensures
        ({
            let cols = tiles_along(image.width as int, spec.margin as int, spec.width as int, spec.spacing as int);
            let rows = tiles_along(image.height as int, spec.margin as int, spec.height as int, spec.spacing as int);
            &&& r@.len() == cols * rows
            &&& forall|i: int| 0 <= i < r@.len() ==> {
                let t = #[trigger] r@[i];
                let (x, y) = tile_origin(*spec, cols, i);
                &&& t.wf()
                &&& t.width == spec.width
                &&& t.height == spec.height
                &&& t.pixels@ == sub_image_spec(image.pixels@, image.width as int, x, y, spec.width as int, spec.height as int)
            }
        }),
{
    let cols = tiles_along_exec(image.width, spec.margin, spec.width, spec.spacing);
    let rows = tiles_along_exec(image.height, spec.margin, spec.height, spec.spacing);
    let ghost ci = cols as int;
    let mut out: Vec<Bitmap> = Vec::new();
    let mut row: u32 = 0;
    while row < rows
        invariant
            image.wf(),
            spec.width > 0,
            spec.height > 0,
            cols == tiles_along(image.width as int, spec.margin as int, spec.width as int, spec.spacing as int),
            rows == tiles_along(image.height as int, spec.margin as int, spec.height as int, spec.spacing as int),
            0 <= row <= rows,
            ci == cols,
            out@.len() == row * cols,
            forall|i: int| 0 <= i < out@.len() ==> {
                let t = #[trigger] out@[i];
                let (x, y) = tile_origin(*spec, ci, i);
                &&& t.wf()
                &&& t.width == spec.width
                &&& t.height == spec.height
                &&& t.pixels@ == sub_image_spec(image.pixels@, image.width as int, x, y, spec.width as int, spec.height as int)
            },
        decreases rows - row,
    {
        proof {
            lemma_tiles_along(image.height as int, spec.margin as int, spec.height as int, spec.spacing as int, row as int);
        }
        let y = (spec.margin as u64 + row as u64 * (spec.height as u64 + spec.spacing as u64)) as u32;
        let mut col: u32 = 0;
        while col < cols
            invariant
                image.wf(),
                spec.width > 0,
                spec.height > 0,
                cols == tiles_along(image.width as int, spec.margin as int, spec.width as int, spec.spacing as int),
                0 <= row < rows,
                y == spec.margin + row * (spec.height + spec.spacing),
                y + spec.height <= image.height,
                0 <= col <= cols,
                ci == cols,
                out@.len() == row * cols + col,
                forall|i: int| 0 <= i < out@.len() ==> {
                    let t = #[trigger] out@[i];
                    let (x, y) = tile_origin(*spec, ci, i);
                    &&& t.wf()
                    &&& t.width == spec.width
                    &&& t.height == spec.height
                    &&& t.pixels@ == sub_image_spec(image.pixels@, image.width as int, x, y, spec.width as int, spec.height as int)
                },
            decreases cols - col,
        {
            proof {
                lemma_tiles_along(image.width as int, spec.margin as int, spec.width as int, spec.spacing as int, col as int);
                lemma_fundamental_div_mod_converse(row * cols + col, cols as int, row as int, col as int);
                assert(4 * spec.width * spec.height == 4 * (spec.width * spec.height)) by (nonlinear_arith);
            }
            let x = (spec.margin as u64 + col as u64 * (spec.width as u64 + spec.spacing as u64)) as u32;
            let px = image.sub_image_bytes(x, y, spec.width, spec.height);
            let ghost i = out@.len() as int;
            out.push(Bitmap { width: spec.width, height: spec.height, pixels: px });
            assert(tile_origin(*spec, ci, i) == (x as int, y as int));
            col = col + 1;
        }
        proof {
            assert((row + 1) * cols == row * cols + cols) by (nonlinear_arith);
        }
        row = row + 1;
    }
    assert(rows * cols == cols * rows) by (nonlinear_arith);
    out
}

} // verus!
