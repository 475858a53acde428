//! Placing tiles in an atlas, composing the atlas, and reading sprite
//! regions back in the order of the tiles.
use vstd::prelude::*;
use vstd::arithmetic::div_mod::lemma_fundamental_div_mod_converse;
use crate::bitmap::{Bitmap, sub_image_spec};

verus! {

/// A tile handed to a packer: its correlation id and its size.
#[derive(Clone, Copy, Debug)]
pub struct SpriteData {
    pub id: usize,
    pub dimensions: (u32, u32),
}

/// Where a packer put a tile: its correlation id, its top-left corner in
/// the atlas, and its size.
#[derive(Clone, Copy, Debug)]
pub struct SpriteAnchor {
    pub id: usize,
    pub position: (u32, u32),
    pub dimensions: (u32, u32),
}

/// The outcome of one packing pass: the atlas size and one anchor per tile.
#[derive(Debug)]
pub struct PackerResult {
    pub dimensions: (u32, u32),
    pub anchors: Vec<SpriteAnchor>,
}

/// Packs tiles of one size in a single pass, by stacking them in a column
/// in input order.
pub struct TilePacker;

impl TilePacker {
    /// Stacks the tiles top to bottom, every one with the size of the first;
    /// the atlas is one tile wide.
    pub fn pack(sprites: &Vec<SpriteData>) -> (r: PackerResult)
        requires
            sprites@.len() > 0 ==> sprites@.len() * sprites@[0].dimensions.1 <= u32::MAX,
        ensures
            sprites@.len() == 0 ==> r.dimensions == (0u32, 0u32) && r.anchors@.len() == 0,
            sprites@.len() > 0 ==> ({
                let (w, h) = sprites@[0].dimensions;
                &&& r.dimensions == (w, (sprites@.len() * h) as u32)
                &&& r.anchors@.len() == sprites@.len()
                &&& forall|i: int| 0 <= i < sprites@.len() ==> #[trigger] r.anchors@[i] == (SpriteAnchor {
                    id: sprites@[i].id,
                    position: (0u32, (i * h) as u32),
                    dimensions: (w, h),
                })
            }),
    {
        if sprites.len() == 0 {
            return PackerResult { dimensions: (0, 0), anchors: Vec::new() };
        }
        let (width, height) = sprites[0].dimensions;
        let n = sprites.len();
        let mut anchors: Vec<SpriteAnchor> = Vec::new();
        let mut num: usize = 0;
        while num < n
            invariant
                n == sprites@.len(),
                n > 0,
                (width, height) == sprites@[0].dimensions,
                n * height <= u32::MAX,
                0 <= num <= n,
                anchors@.len() == num,
                forall|i: int| 0 <= i < num ==> #[trigger] anchors@[i] == (SpriteAnchor {
                    id: sprites@[i].id,
                    position: (0u32, (i * height) as u32),
                    dimensions: (width, height),
                }),
            decreases n - num,
        {
            proof {
                assert(num * height <= n * height) by (nonlinear_arith)
                    requires
                        num <= n,
                ;
            }
            let top = (num as u64 * height as u64) as u32;
            anchors.push(SpriteAnchor { id: sprites[num].id, position: (0, top), dimensions: (width, height) });
            num = num + 1;
        }
        let total = (n as u64 * height as u64) as u32;
        PackerResult { dimensions: (width, total), anchors }
    }
}

/// The pixels of a column atlas: the tiles' pixels one after another, as
/// each tile is one atlas wide and its rows follow those of the tile above.
pub open spec fn column_pixels(tiles: Seq<Bitmap>, w: int, h: int) -> Seq<u8> {
    Seq::new(
        (tiles.len() * (4 * w * h)) as nat,
        |b: int| tiles[b / (4 * w * h)].pixels@[b % (4 * w * h)],
    )
}

/// Every tile is a well-formed `w` x `h` bitmap.
pub open spec fn uniform_tiles(tiles: Seq<Bitmap>, w: int, h: int) -> bool {
    forall|i: int| 0 <= i < tiles.len() ==> {
        &&& (#[trigger] tiles[i]).wf()
        &&& tiles[i].width == w
        &&& tiles[i].height == h
    }
}

/// Composes the atlas of tiles stacked in a column, `w` pixels wide.
pub fn compose_column(tiles: &Vec<Bitmap>, w: u32, h: u32) -> (r: Bitmap)
    requires
        uniform_tiles(tiles@, w as int, h as int),
        tiles@.len() * h <= u32::MAX,
    ensures
        r.wf(),
        r.width == w,
        r.height == tiles@.len() * h,
        r.pixels@ == column_pixels(tiles@, w as int, h as int),
{
    let ghost size = 4 * w * h;
    let ghost spec_px = column_pixels(tiles@, w as int, h as int);
    let n = tiles.len();
    let mut out: Vec<u8> = Vec::new();
    let mut i: usize = 0;
    while i < n
        invariant
            n == tiles@.len(),
            uniform_tiles(tiles@, w as int, h as int),
            size == 4 * w * h,
            spec_px == column_pixels(tiles@, w as int, h as int),
            0 <= i <= n,
            out@.len() == i * size,
            forall|k: int| 0 <= k < out@.len() ==> #[trigger] out@[k] == spec_px[k],
        decreases n - i,
    {
        let t = &tiles[i];
        let m = t.pixels.len();
        let mut b: usize = 0;
        while b < m
            invariant
                n == tiles@.len(),
                0 <= i < n,
                *t == tiles@[i as int],
                t.wf(),
                t.width == w,
                t.height == h,
                m == size,
                size == 4 * w * h,
                spec_px == column_pixels(tiles@, w as int, h as int),
                0 <= b <= m,
                out@.len() == i * size + b,
                forall|k: int| 0 <= k < out@.len() ==> #[trigger] out@[k] == spec_px[k],
            decreases m - b,
        {
            proof {
                let k = i * size + b;
                lemma_fundamental_div_mod_converse(k, size, i as int, b as int);
                assert(k < n * size) by (nonlinear_arith)
                    requires
                        k == i * size + b,
                        b < size,
                        i < n,
                ;
            }
            out.push(t.pixels[b]);
            b = b + 1;
        }
        proof {
            assert((i + 1) * size == i * size + size) by (nonlinear_arith);
        }
        i = i + 1;
    }
    proof {
        assert(4 * w * (n * h) == n * (4 * w * h)) by (nonlinear_arith);
    }
    assert(out@ =~= spec_px);
    Bitmap { width: w, height: (n as u64 * h as u64) as u32, pixels: out }
}

/// In a column of `n` tiles of height `h`, the rows of tile `i`, from
/// `i * h`, end before those of any later tile `j` begin, and every tile
/// ends within the column's height `n * h`: no two tiles overlap.
pub proof fn lemma_column_disjoint(n: int, h: int, i: int, j: int)
    requires
        0 <= i < j < n,
        h > 0,
    ensures
        i * h + h <= j * h,
        j * h + h <= n * h,
{
    assert(i * h + h <= j * h) by (nonlinear_arith)
        requires
            i + 1 <= j,
            h > 0,
    ;
    assert(j * h + h <= n * h) by (nonlinear_arith)
        requires
            j + 1 <= n,
            h > 0,
    ;
}

/// Reading a column atlas back at the place of tile `i` gives that tile's
/// pixels, byte for byte.
pub proof fn lemma_column_round_trip(tiles: Seq<Bitmap>, w: int, h: int, i: int)
    requires
        uniform_tiles(tiles, w, h),
        w > 0,
        h > 0,
        0 <= i < tiles.len(),
    ensures
        sub_image_spec(column_pixels(tiles, w, h), w, 0, i * h, w, h) == tiles[i].pixels@,
{
    let size = 4 * w * h;
    let px = column_pixels(tiles, w, h);
    let got = sub_image_spec(px, w, 0, i * h, w, h);
    assert forall|k: int| 0 <= k < size implies #[trigger] got[k] == tiles[i].pixels@[k] by {
        let row = k / (4 * w);
        let col = k % (4 * w);
        vstd::arithmetic::div_mod::lemma_fundamental_div_mod(k, 4 * w);
        assert(0 <= row < h) by {
            vstd::arithmetic::div_mod::lemma_div_is_ordered(0, k, 4 * w);
            if row >= h {
                assert(4 * w * row >= 4 * w * h) by (nonlinear_arith)
                    requires
                        row >= h,
                        w > 0,
                ;
            }
        }
        let b = 4 * ((i * h + row) * w + 0) + col;
        assert(b == i * size + k) by (nonlinear_arith)
            requires
                b == 4 * ((i * h + row) * w + 0) + col,
                k == 4 * w * row + col,
                size == 4 * w * h,
        ;
        assert(size > 0) by (nonlinear_arith)
            requires
                w > 0,
                h > 0,
                size == 4 * w * h,
        ;
        assert((i + 1) * size <= tiles.len() * size) by (nonlinear_arith)
            requires
                i + 1 <= tiles.len(),
                size > 0,
        ;
        assert((i + 1) * size == i * size + size) by (nonlinear_arith);
        assert(0 <= i * size) by (nonlinear_arith)
            requires
                0 <= i,
                0 < size,
        ;
        lemma_fundamental_div_mod_converse(b, size, i, k);
    }
    assert(size > 0) by (nonlinear_arith)
        requires
            w > 0,
            h > 0,
            size == 4 * w * h,
    ;
    assert(got =~= tiles[i].pixels@);
}

} // verus!
