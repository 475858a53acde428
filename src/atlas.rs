//! Packing tiles into one atlas: stacked in a column where all tiles share
//! a size, laid out by the general packer otherwise.
use vstd::prelude::*;
use crate::bitmap::Bitmap;
use crate::compose::{compose_at, drawn_pixels};
use crate::error::LoadError;
use crate::packing::{PackerResult, SpriteAnchor, SpriteData, TilePacker, column_pixels, compose_column};
use crate::tileset::tile_view;

verus! {

/// The sheets that the general packer lays tiles of the given sizes out
/// in: for each sheet, the positions of the tiles, in the order of the
/// tiles.
pub uninterp spec fn simple_pack_positions(sizes: Seq<(u32, u32)>) -> Seq<Seq<(u32, u32)>>;

pub open spec fn positions_view(r: Seq<Vec<(u32, u32)>>) -> Seq<Seq<(u32, u32)>> {
    r.map_values(|v: Vec<(u32, u32)>| v@)
}

pub open spec fn sum_widths(sizes: Seq<(u32, u32)>) -> int
    decreases sizes.len(),
{
    if sizes.len() == 0 {
        0
    } else {
        sum_widths(sizes.drop_last()) + sizes.last().0
    }
}

pub open spec fn sum_heights(sizes: Seq<(u32, u32)>) -> int
    decreases sizes.len(),
{
    if sizes.len() == 0 {
        0
    } else {
        sum_heights(sizes.drop_last()) + sizes.last().1
    }
}

/// Below this, in either direction, the general packer's corner arithmetic
/// (fourth powers in 64 bits) cannot overflow.
pub const PACK_LIMIT: u64 = 32768;

/// Relies on sheep's SimplePacker::pack, given tile `i` with id `i`: it
/// returns one sheet, with one anchor per tile, sorted by id. Every
/// corner it tracks is a sum of tile sizes, which the bound keeps from
/// overflowing.
#[verifier::external_body]
fn simple_pack(sizes: &Vec<(u32, u32)>) -> (r: Vec<Vec<(u32, u32)>>)
    requires
        sum_widths(sizes@) < PACK_LIMIT,
        sum_heights(sizes@) < PACK_LIMIT,
    ensures
        positions_view(r@) == simple_pack_positions(sizes@),
        r@.len() == 1,
        r@[0]@.len() == sizes@.len(),
{
    let input: Vec<sheep::SpriteData> =
        sizes.iter().enumerate().map(|(i, d)| sheep::SpriteData::new(i, *d)).collect();
    <sheep::SimplePacker as sheep::Packer>::pack(&input, ())
        .iter()
        .map(|sheet| sheet.anchors.iter().map(|a| a.position).collect())
        .collect()
}

/// A packed atlas: its pixels, and one anchor per tile, with the tile's
/// index as correlation id.
#[derive(Debug)]
pub struct Atlas {
    pub image: Bitmap,
    pub anchors: Vec<SpriteAnchor>,
}

pub open spec fn sizes_of(tiles: Seq<Bitmap>) -> Seq<(u32, u32)> {
    tiles.map_values(|b: Bitmap| (b.width, b.height))
}

/// All tiles have the size of the first.
pub open spec fn same_size(tiles: Seq<Bitmap>) -> bool {
    forall|i: int| 0 <= i < tiles.len() ==> (#[trigger] tiles[i]).width == tiles[0].width && tiles[i].height == tiles[0].height
}

/// The right edge of the rightmost of the first `n` tiles.
pub open spec fn max_right(sizes: Seq<(u32, u32)>, pos: Seq<(u32, u32)>, n: int) -> int
    decreases n,
{
    if n <= 0 {
        0
    } else {
        let r = pos[n - 1].0 + sizes[n - 1].0;
        let m = max_right(sizes, pos, n - 1);
        if r > m { r } else { m }
    }
}

/// The bottom edge of the lowest of the first `n` tiles.
pub open spec fn max_bottom(sizes: Seq<(u32, u32)>, pos: Seq<(u32, u32)>, n: int) -> int
    decreases n,
{
    if n <= 0 {
        0
    } else {
        let b = pos[n - 1].1 + sizes[n - 1].1;
        let m = max_bottom(sizes, pos, n - 1);
        if b > m { b } else { m }
    }
}

/// The anchors of tiles of the given sizes at the given positions.
pub open spec fn anchors_at(anchors: Seq<SpriteAnchor>, sizes: Seq<(u32, u32)>, pos: Seq<(u32, u32)>) -> bool {
    &&& anchors.len() == sizes.len()
    &&& forall|i: int| 0 <= i < sizes.len() ==> #[trigger] anchors[i] == (SpriteAnchor { id: i as usize, position: pos[i], dimensions: sizes[i] })
}

/// What packing with the general packer gives: an error where the tiles'
/// sizes add up past `PACK_LIMIT` or the atlas would not fit in memory,
/// else the atlas that bounds the tiles at their positions exactly.
pub open spec fn general_ok(tiles: Seq<Bitmap>, r: Result<Atlas, LoadError>) -> bool {
    let sizes = sizes_of(tiles);
    if sum_widths(sizes) >= PACK_LIMIT || sum_heights(sizes) >= PACK_LIMIT {
        r == Err::<Atlas, LoadError>(LoadError::AtlasTooLarge)
    } else {
        let sheets = simple_pack_positions(sizes);
        let pos = sheets[0];
        let aw = max_right(sizes, pos, sizes.len() as int);
        let ah = max_bottom(sizes, pos, sizes.len() as int);
        if aw > u32::MAX || ah > u32::MAX || 4 * aw * ah > usize::MAX {
            r == Err::<Atlas, LoadError>(LoadError::AtlasTooLarge)
        } else {
            r matches Ok(a) && {
                &&& a.image.wf()
                &&& a.image.width == aw
                &&& a.image.height == ah
                &&& a.image.pixels@ == drawn_pixels(tiles.map_values(|b: Bitmap| tile_view(b)), pos, aw, ah)
                &&& anchors_at(a.anchors@, sizes, pos)
            }
        }
    }
}

fn sizes_and_sums(tiles: &Vec<Bitmap>) -> (r: (Vec<(u32, u32)>, u64, u64))
    ensures
        r.0@ == sizes_of(tiles@),
        r.1 == if sum_widths(sizes_of(tiles@)) < PACK_LIMIT { sum_widths(sizes_of(tiles@)) } else { PACK_LIMIT as int },
        r.2 == if sum_heights(sizes_of(tiles@)) < PACK_LIMIT { sum_heights(sizes_of(tiles@)) } else { PACK_LIMIT as int },
{
    let mut sizes: Vec<(u32, u32)> = Vec::new();
    let mut sw: u64 = 0;
    let mut sh: u64 = 0;
    let mut i: usize = 0;
    while i < tiles.len()
        invariant
            0 <= i <= tiles@.len(),
            sizes@ == sizes_of(tiles@).take(i as int),
            sw == if sum_widths(sizes@) < PACK_LIMIT { sum_widths(sizes@) } else { PACK_LIMIT as int },
            sh == if sum_heights(sizes@) < PACK_LIMIT { sum_heights(sizes@) } else { PACK_LIMIT as int },
        decreases tiles@.len() - i,
    {
        let d = (tiles[i].width, tiles[i].height);
        let ghost before = sizes@;
        sizes.push(d);
        assert(sizes@.drop_last() == before);
        assert(sizes_of(tiles@).take(i + 1) =~= sizes_of(tiles@).take(i as int).push(d));
        sw = if sw + d.0 as u64 >= PACK_LIMIT { PACK_LIMIT } else { sw + d.0 as u64 };
        sh = if sh + d.1 as u64 >= PACK_LIMIT { PACK_LIMIT } else { sh + d.1 as u64 };
        proof {
            lemma_sums_grow(before, d);
        }
        i = i + 1;
    }
    assert(sizes_of(tiles@).take(tiles@.len() as int) =~= sizes_of(tiles@));
    (sizes, sw, sh)
}

proof fn lemma_sums_grow(s: Seq<(u32, u32)>, d: (u32, u32))
    ensures
        sum_widths(s.push(d)) == sum_widths(s) + d.0,
        sum_heights(s.push(d)) == sum_heights(s) + d.1,
        sum_widths(s) >= 0,
        sum_heights(s) >= 0,
    decreases s.len(),
{
    assert(s.push(d).drop_last() == s);
    if s.len() > 0 {
        lemma_sums_grow(s.drop_last(), s.last());
        assert(s.drop_last().push(s.last()) == s);
    }
}

/// Packs tiles of any sizes with the general packer and draws them into
/// the smallest atlas that bounds them.
pub fn pack_general(tiles: &Vec<Bitmap>) -> (r: Result<Atlas, LoadError>)
    requires
        forall|i: int| 0 <= i < tiles@.len() ==> (#[trigger] tiles@[i]).wf(),
    ensures
        general_ok(tiles@, r),
{
    let ghost sizes_s = sizes_of(tiles@);
    let (sizes, sw, sh) = sizes_and_sums(tiles);
    if sw >= PACK_LIMIT || sh >= PACK_LIMIT {
        return Err(LoadError::AtlasTooLarge);
    }
    let sheets = simple_pack(&sizes);
    if sheets.len() != 1 {
        return Err(LoadError::MultiAtlasUnsupported);
    }
    let pos = &sheets[0];
    assert(pos@ == positions_view(sheets@)[0]);
    let n = tiles.len();
    let mut aw: u64 = 0;
    let mut ah: u64 = 0;
    let mut i: usize = 0;
    while i < n
        invariant
            n == tiles@.len(),
            sizes@ == sizes_s,
            sizes_s == sizes_of(tiles@),
            pos@.len() == n,
            0 <= i <= n,
            forall|k: int| 0 <= k < tiles@.len() ==> (#[trigger] tiles@[k]).wf(),
            aw == max_right(sizes_s, pos@, i as int),
            ah == max_bottom(sizes_s, pos@, i as int),
            forall|k: int| 0 <= k < i ==> pos@[k].0 + (#[trigger] sizes_s[k]).0 <= aw && pos@[k].1 + sizes_s[k].1 <= ah,
        decreases n - i,
    {
        let (x, y) = pos[i];
        let (w, h) = sizes[i];
        let right = x as u64 + w as u64;
        let bottom = y as u64 + h as u64;
        if right > aw {
            aw = right;
        }
        if bottom > ah {
            ah = bottom;
        }
        i = i + 1;
    }
    if aw > u32::MAX as u64 || ah > u32::MAX as u64 {
        return Err(LoadError::AtlasTooLarge);
    }
    proof {
        assert(aw * ah <= 0xffff_ffff * 0xffff_ffff) by (nonlinear_arith)
            requires
                aw <= 0xffff_ffff,
                ah <= 0xffff_ffff,
        ;
    }
    if (aw as u128) * (ah as u128) * 4 > usize::MAX as u128 {
        proof {
            assert((aw as u128) * (ah as u128) * 4 == 4 * aw * ah) by (nonlinear_arith);
        }
        return Err(LoadError::AtlasTooLarge);
    }
    proof {
        assert((aw as u128) * (ah as u128) * 4 == 4 * aw * ah) by (nonlinear_arith);
    }
    assert forall|k: int| 0 <= k < n implies pos@[k].0 + (#[trigger] tiles@[k]).width <= aw && pos@[k].1 + tiles@[k].height <= ah by {
        assert(sizes_s[k] == (tiles@[k].width, tiles@[k].height));
    }
    let image = compose_at(tiles, pos, aw as u32, ah as u32);
    let mut anchors: Vec<SpriteAnchor> = Vec::new();
    let mut k: usize = 0;
    while k < n
        invariant
            n == tiles@.len(),
            sizes@ == sizes_s,
            sizes_s == sizes_of(tiles@),
            pos@.len() == n,
            0 <= k <= n,
            anchors@.len() == k,
            forall|j: int| 0 <= j < k ==> #[trigger] anchors@[j] == (SpriteAnchor { id: j as usize, position: pos@[j], dimensions: sizes_s[j] }),
        decreases n - k,
    {
        anchors.push(SpriteAnchor { id: k, position: pos[k], dimensions: sizes[k] });
        k = k + 1;
    }
    Ok(Atlas { image, anchors })
}

/// What stacking same-size tiles in a column gives: an error where the
/// column would be taller than 32-bit pixel coordinates reach, else the
/// column atlas with tile `i` at `(0, i * h)`.
pub open spec fn column_ok(tiles: Seq<Bitmap>, r: Result<Atlas, LoadError>) -> bool {
    let w = tiles[0].width;
    let h = tiles[0].height;
    if tiles.len() * h > u32::MAX {
        r == Err::<Atlas, LoadError>(LoadError::AtlasTooLarge)
    } else {
        r matches Ok(a) && {
            &&& a.image.wf()
            &&& a.image.width == w
            &&& a.image.height == tiles.len() * h
            &&& a.image.pixels@ == column_pixels(tiles, w as int, h as int)
            &&& a.anchors@.len() == tiles.len()
            &&& forall|i: int| 0 <= i < tiles.len() ==> #[trigger] a.anchors@[i] == (SpriteAnchor {
                id: i as usize,
                position: (0u32, (i * h) as u32),
                dimensions: (w, h),
            })
        }
    }
}

/// Packs the tiles into one atlas: where they all share a size, stacked in
/// a column in input order; otherwise laid out by the general packer.
/// Anchor `i` belongs to tile `i`.
pub fn pack_tiles(tiles: &Vec<Bitmap>) -> (r: Result<Atlas, LoadError>)
    requires
        forall|i: int| 0 <= i < tiles@.len() ==> (#[trigger] tiles@[i]).wf(),
    ensures
        pack_outcome(tiles@, r),
{
    let n = tiles.len();
    if n == 0 {
        return Ok(Atlas { image: Bitmap { width: 0, height: 0, pixels: Vec::new() }, anchors: Vec::new() });
    }
    let w = tiles[0].width;
    let h = tiles[0].height;
    let mut i: usize = 0;
    let mut same = true;
    while i < n
        invariant
            n == tiles@.len(),
            n > 0,
            w == tiles@[0].width,
            h == tiles@[0].height,
            0 <= i <= n,
            same == forall|k: int| 0 <= k < i ==> (#[trigger] tiles@[k]).width == w && tiles@[k].height == h,
        decreases n - i,
    {
        if tiles[i].width != w || tiles[i].height != h {
            same = false;
        }
        i = i + 1;
    }
    if !same {
        return pack_general(tiles);
    }
    proof {
        assert(n * h <= 0xffff_ffff_ffff_ffff * 0xffff_ffff) by (nonlinear_arith)
            requires
                n <= 0xffff_ffff_ffff_ffff,
                h <= 0xffff_ffff,
        ;
    }
    if n as u128 * h as u128 > u32::MAX as u128 {
        return Err(LoadError::AtlasTooLarge);
    }
    let mut sprites: Vec<SpriteData> = Vec::new();
    let mut k: usize = 0;
    while k < n
        invariant
            n == tiles@.len(),
            0 <= k <= n,
            sprites@.len() == k,
            forall|j: int| 0 <= j < k ==> #[trigger] sprites@[j] == (SpriteData { id: j as usize, dimensions: (w, h) }),
        decreases n - k,
    {
        sprites.push(SpriteData { id: k, dimensions: (w, h) });
        k = k + 1;
    }
    let packed: PackerResult = TilePacker::pack(&sprites);
    let image = compose_column(tiles, w, h);
    Ok(Atlas { image, anchors: packed.anchors })
}

/// What packing the tiles gives, by the policy their sizes select.
pub open spec fn pack_outcome(tiles: Seq<Bitmap>, r: Result<Atlas, LoadError>) -> bool {
    &&& tiles.len() == 0 ==> (r matches Ok(a) && a.image.width == 0 && a.image.height == 0
        && a.image.pixels@.len() == 0 && a.anchors@.len() == 0)
    &&& tiles.len() > 0 && same_size(tiles) ==> column_ok(tiles, r)
    &&& !same_size(tiles) ==> general_ok(tiles, r)
}

/// Packing depends on the tiles' sizes and pixels alone.
pub proof fn lemma_pack_outcome_views(t1: Seq<Bitmap>, t2: Seq<Bitmap>, r: Result<Atlas, LoadError>)
    requires
        t1.map_values(|b: Bitmap| tile_view(b)) == t2.map_values(|b: Bitmap| tile_view(b)),
    ensures
        pack_outcome(t1, r) == pack_outcome(t2, r),
{
    let v1 = t1.map_values(|b: Bitmap| tile_view(b));
    let v2 = t2.map_values(|b: Bitmap| tile_view(b));
    assert(t1.len() == v1.len() && t2.len() == v2.len());
    assert forall|i: int| 0 <= i < t1.len() implies #[trigger] t1[i].width == t2[i].width && t1[i].height == t2[i].height
        && t1[i].pixels@ == t2[i].pixels@ by {
        assert(v1[i] == tile_view(t1[i]) && v2[i] == tile_view(t2[i]));
    }
    assert(sizes_of(t1) =~= sizes_of(t2));
    if t1.len() > 0 {
        let w = t1[0].width as int;
        let h = t1[0].height as int;
        let c1 = column_pixels(t1, w, h);
        let c2 = column_pixels(t2, w, h);
        let size = 4 * w * h;
        assert forall|k: int| 0 <= k < c1.len() implies c1[k] == c2[k] by {
            assert(size >= 0) by (nonlinear_arith)
                requires
                    size == 4 * w * h,
                    w >= 0,
                    h >= 0,
            ;
            assert(size > 0) by (nonlinear_arith)
                requires
                    0 <= k < t1.len() * size,
                    size >= 0,
                    t1.len() >= 0,
            ;
            vstd::arithmetic::div_mod::lemma_fundamental_div_mod(k, size);
            let i = k / size;
            assert(0 <= i < t1.len()) by (nonlinear_arith)
                requires
                    k == size * i + k % size,
                    0 <= k % size < size,
                    0 <= k < t1.len() * size,
            ;
            assert(t1[i].width == t2[i].width);
            assert(t1[i].pixels@ == t2[i].pixels@);
        }
        assert(c1 =~= c2);
        assert(same_size(t1) == same_size(t2)) by {
            if same_size(t1) {
                assert forall|i: int| 0 <= i < t2.len() implies (#[trigger] t2[i]).width == t2[0].width && t2[i].height == t2[0].height by {
                    assert(t1[i].width == t2[i].width);
                }
            }
            if same_size(t2) {
                assert forall|i: int| 0 <= i < t1.len() implies (#[trigger] t1[i]).width == t1[0].width && t1[i].height == t1[0].height by {
                    assert(t1[i].width == t2[i].width);
                }
            }
        }
    }
}

} // verus!
