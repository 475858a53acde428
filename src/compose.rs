//! Drawing tiles into an atlas at the positions a packer chose.
use vstd::prelude::*;
use vstd::arithmetic::div_mod::{lemma_fundamental_div_mod, lemma_fundamental_div_mod_converse};
use crate::bitmap::{Bitmap, lemma_row_in_bounds};
use crate::tileset::tile_view;

verus! {

pub open spec fn covers_pixel(x: int, y: int, w: int, h: int, cx: int, cy: int) -> bool {
    x <= cx < x + w && y <= cy < y + h
}

/// Byte `k` of an atlas `aw` pixels wide once the first `n` tiles have
/// been drawn, each at its position, over a transparent background: the
/// last tile drawn over a pixel gives its bytes.
pub open spec fn drawn_byte(tiles: Seq<(u32, u32, Seq<u8>)>, pos: Seq<(u32, u32)>, aw: int, n: int, k: int) -> u8
    decreases n,
{
    if n <= 0 {
        0u8
    } else {
        let t = tiles[n - 1];
        let p = pos[n - 1];
        let cx = (k / 4) % aw;
        let cy = (k / 4) / aw;
        if covers_pixel(p.0 as int, p.1 as int, t.0 as int, t.1 as int, cx, cy) {
            t.2[4 * ((cy - p.1) * t.0 + (cx - p.0)) + k % 4]
        } else {
            drawn_byte(tiles, pos, aw, n - 1, k)
        }
    }
}

/// The pixels of an `aw` x `ah` atlas with all the tiles drawn.
pub open spec fn drawn_pixels(tiles: Seq<(u32, u32, Seq<u8>)>, pos: Seq<(u32, u32)>, aw: int, ah: int) -> Seq<u8> {
    Seq::new((4 * aw * ah) as nat, |k: int| drawn_byte(tiles, pos, aw, tiles.len() as int, k))
}

/// Every tile lies inside the `aw` x `ah` atlas.
pub open spec fn placed_inside(tiles: Seq<Bitmap>, pos: Seq<(u32, u32)>, aw: int, ah: int) -> bool {
    &&& pos.len() == tiles.len()
    &&& forall|i: int| 0 <= i < tiles.len() ==> {
        &&& (#[trigger] tiles[i]).wf()
        &&& pos[i].0 + tiles[i].width <= aw
        &&& pos[i].1 + tiles[i].height <= ah
    }
}

/// The byte of a tile at `(x, y)`, `w` pixels wide, that lands on byte `k`
/// of an atlas `aw` pixels wide.
spec fn tile_byte(px: Seq<u8>, x: int, y: int, w: int, aw: int, k: int) -> u8 {
    px[4 * (((k / 4) / aw - y) * w + ((k / 4) % aw - x)) + k % 4]
}

/// Byte `k` lies in the part of tile `(x, y, w, h)` drawn so far: the rows
/// before `j`, and the first `b` bytes of row `j`.
spec fn drawn_part(x: int, y: int, w: int, h: int, aw: int, j: int, b: int, k: int) -> bool {
    let cx = (k / 4) % aw;
    let cy = (k / 4) / aw;
    covers_pixel(x, y, w, h, cx, cy) && ((cy - y) < j || (cy - y == j && 4 * (cx - x) + k % 4 < b))
}

proof fn lemma_pixel_of(aw: int, x: int, y: int, w: int, j: int, b: int)
    requires
        aw > 0,
        0 <= x,
        0 <= y,
        0 <= j,
        x + w <= aw,
        0 <= b < 4 * w,
    ensures
        ({
            let k = 4 * ((y + j) * aw + x) + b;
            &&& (k / 4) % aw == x + b / 4
            &&& (k / 4) / aw == y + j
            &&& k % 4 == b % 4
        }),
{
    let q = (y + j) * aw + x;
    let k = 4 * q + b;
    lemma_fundamental_div_mod(b, 4);
    lemma_fundamental_div_mod_converse(k, 4, q + b / 4, b % 4);
    assert(0 <= (y + j) * aw) by (nonlinear_arith)
        requires
            0 <= y + j,
            0 < aw,
    ;
    lemma_fundamental_div_mod_converse(q + b / 4, aw, y + j, x + b / 4);
}

proof fn lemma_same_pixel(aw: int, x: int, y: int, j: int, b: int, k: int)
    requires
        aw > 0,
        0 <= k,
        (k / 4) / aw == y + j,
        4 * ((k / 4) % aw - x) + k % 4 == b,
    ensures
        k == 4 * ((y + j) * aw + x) + b,
{
    lemma_fundamental_div_mod(k, 4);
    lemma_fundamental_div_mod(k / 4, aw);
    assert(aw * ((k / 4) / aw) == (y + j) * aw) by (nonlinear_arith)
        requires
            (k / 4) / aw == y + j,
    ;
}

/// Draws the tiles into a transparent `aw` x `ah` atlas, tile after tile,
/// each at its position.
pub fn compose_at(tiles: &Vec<Bitmap>, pos: &Vec<(u32, u32)>, aw: u32, ah: u32) -> (r: Bitmap)
    requires
        placed_inside(tiles@, pos@, aw as int, ah as int),
        4 * aw * ah <= usize::MAX,
    ensures
        r.wf(),
        r.width == aw,
        r.height == ah,
        r.pixels@ == drawn_pixels(tiles@.map_values(|b: Bitmap| tile_view(b)), pos@, aw as int, ah as int),
{
    proof {
        assert(4 * (aw * ah) == 4 * aw * ah && aw * ah <= 4 * (aw * ah)) by (nonlinear_arith);
    }
    let ghost views = tiles@.map_values(|b: Bitmap| tile_view(b));
    let len: usize = 4 * ((aw as usize) * (ah as usize));
    let mut buf: Vec<u8> = Vec::new();
    let mut i: usize = 0;
    while i < len
        invariant
            0 <= i <= len,
            buf@.len() == i,
            forall|k: int| 0 <= k < i ==> #[trigger] buf@[k] == 0u8,
        decreases len - i,
    {
        buf.push(0);
        i = i + 1;
    }
    if aw == 0 {
        let r = Bitmap { width: aw, height: ah, pixels: buf };
        assert(r.pixels@ =~= drawn_pixels(views, pos@, aw as int, ah as int));
        return r;
    }
    let n = tiles.len();
    let mut t: usize = 0;
    while t < n
        invariant
            placed_inside(tiles@, pos@, aw as int, ah as int),
            views == tiles@.map_values(|b: Bitmap| tile_view(b)),
            n == tiles@.len(),
            aw > 0,
            len == 4 * aw * ah,
            buf@.len() == len,
            0 <= t <= n,
            forall|k: int| 0 <= k < len ==> #[trigger] buf@[k] == drawn_byte(views, pos@, aw as int, t as int, k),
        decreases n - t,
    {
        let tile = &tiles[t];
        let (x, y) = pos[t];
        let w = tile.width;
        let h = tile.height;
        assert(tile.wf() && x + w <= aw && y + h <= ah);
        assert(views[t as int] == tile_view(*tile));
        if w == 0 || h == 0 {
            t = t + 1;
            continue;
        }
        let tl = tile.pixels.len();
        proof {
            assert(4 * w <= 4 * aw * ah) by (nonlinear_arith)
                requires
                    w <= aw,
                    1 <= ah,
            ;
        }
        let rb: usize = 4 * (w as usize);
        let mut j: u32 = 0;
        while j < h
            invariant
                placed_inside(tiles@, pos@, aw as int, ah as int),
                views == tiles@.map_values(|b: Bitmap| tile_view(b)),
                n == tiles@.len(),
                0 <= t < n,
                *tile == tiles@[t as int],
                (x, y) == pos@[t as int],
                w == tile.width,
                h == tile.height,
                tile.wf(),
                x + w <= aw,
                y + h <= ah,
                rb == 4 * w,
                w > 0,
                tl == tile.pixels@.len(),
                aw > 0,
                len == 4 * aw * ah,
                buf@.len() == len,
                0 <= j <= h,
                forall|k: int| 0 <= k < len ==> #[trigger] buf@[k] == if drawn_part(x as int, y as int, w as int, h as int, aw as int, j as int, 0, k) {
                    tile_byte(tile.pixels@, x as int, y as int, w as int, aw as int, k)
                } else {
                    drawn_byte(views, pos@, aw as int, t as int, k)
                },
            decreases h - j,
        {
            proof {
                lemma_row_in_bounds(aw as int, ah as int, x as int, y as int, w as int, h as int, j as int, 0);
                lemma_row_in_bounds(w as int, h as int, 0, 0, w as int, h as int, j as int, 0);
            }
            let base: usize = 4 * ((y + j) as usize * (aw as usize) + x as usize);
            let src: usize = 4 * (j as usize * (w as usize));
            let mut b: usize = 0;
            while b < rb
                invariant
                    placed_inside(tiles@, pos@, aw as int, ah as int),
                    views == tiles@.map_values(|b: Bitmap| tile_view(b)),
                    n == tiles@.len(),
                    0 <= t < n,
                    *tile == tiles@[t as int],
                    (x, y) == pos@[t as int],
                    w == tile.width,
                    h == tile.height,
                    tile.wf(),
                    x + w <= aw,
                    y + h <= ah,
                    rb == 4 * w,
                    w > 0,
                    tl == tile.pixels@.len(),
                    aw > 0,
                    len == 4 * aw * ah,
                    buf@.len() == len,
                    0 <= j < h,
                    base == 4 * ((y + j) * aw + x),
                    base + rb <= len,
                    src == 4 * (j * w),
                    src + rb <= tile.pixels@.len(),
                    0 <= b <= rb,
                    forall|k: int| 0 <= k < len ==> #[trigger] buf@[k] == if drawn_part(x as int, y as int, w as int, h as int, aw as int, j as int, b as int, k) {
                        tile_byte(tile.pixels@, x as int, y as int, w as int, aw as int, k)
                    } else {
                        drawn_byte(views, pos@, aw as int, t as int, k)
                    },
                decreases rb - b,
            {
                let ghost k0 = base + b;
                proof {
                    lemma_pixel_of(aw as int, x as int, y as int, w as int, j as int, b as int);
                    lemma_fundamental_div_mod(b as int, 4);
                    assert(4 * ((j * w) + b / 4) + b % 4 == src + b) by (nonlinear_arith)
                        requires
                            src == 4 * (j * w),
                            b == 4 * (b / 4) + b % 4,
                    ;
                }
                let v = tile.pixels[src + b];
                buf.set(base + b, v);
                proof {
                    assert forall|k: int| 0 <= k < len implies #[trigger] buf@[k] == if drawn_part(x as int, y as int, w as int, h as int, aw as int, j as int, b + 1, k) {
                        tile_byte(tile.pixels@, x as int, y as int, w as int, aw as int, k)
                    } else {
                        drawn_byte(views, pos@, aw as int, t as int, k)
                    } by {
                        if k != k0 {
                            if drawn_part(x as int, y as int, w as int, h as int, aw as int, j as int, b + 1, k)
                                && !drawn_part(x as int, y as int, w as int, h as int, aw as int, j as int, b as int, k) {
                                lemma_same_pixel(aw as int, x as int, y as int, j as int, b as int, k);
                            }
                        }
                    }
                }
                b = b + 1;
            }
            proof {
                assert forall|k: int| 0 <= k < len implies drawn_part(x as int, y as int, w as int, h as int, aw as int, j as int, rb as int, k)
                    == drawn_part(x as int, y as int, w as int, h as int, aw as int, j + 1, 0, k) by {
                    lemma_fundamental_div_mod(k, 4);
                }
            }
            j = j + 1;
        }
        proof {
            assert forall|k: int| 0 <= k < len implies #[trigger] buf@[k] == drawn_byte(views, pos@, aw as int, t + 1, k) by {
                let cx = (k / 4) % aw as int;
                let cy = (k / 4) / aw as int;
                assert(views[t as int].2 == tile.pixels@);
            }
        }
        t = t + 1;
    }
    let r = Bitmap { width: aw, height: ah, pixels: buf };
    assert(r.pixels@ =~= drawn_pixels(views, pos@, aw as int, ah as int));
    r
}

} // verus!
