//! Turning a packer's anchors into sprite regions, in the order of the
//! tiles' correlation ids.
use vstd::prelude::*;
use vstd::seq_lib::{to_multiset_build, to_multiset_insert};
use crate::packing::SpriteAnchor;

verus! {

/// A sprite's rectangle in the atlas, in pixels, with the atlas size.
#[derive(Clone, Copy, Debug)]
pub struct SpriteRegion {
    pub atlas_width: u32,
    pub atlas_height: u32,
    pub left: u32,
    pub top: u32,
    pub width: u32,
    pub height: u32,
}

pub open spec fn region_of(dimensions: (u32, u32), a: SpriteAnchor) -> SpriteRegion {
    SpriteRegion {
        atlas_width: dimensions.0,
        atlas_height: dimensions.1,
        left: a.position.0,
        top: a.position.1,
        width: a.dimensions.0,
        height: a.dimensions.1,
    }
}

pub open spec fn ids_ascending(s: Seq<SpriteAnchor>) -> bool {
    forall|i: int, j: int| 0 <= i < j < s.len() ==> #[trigger] s[i].id <= #[trigger] s[j].id
}

/// The anchors reordered by ascending correlation id.
pub fn sort_by_id(anchors: &Vec<SpriteAnchor>) -> (r: Vec<SpriteAnchor>)
    ensures
        ids_ascending(r@),
        r@.to_multiset() == anchors@.to_multiset(),
{
    let n = anchors.len();
    let mut out: Vec<SpriteAnchor> = Vec::new();
    let mut i: usize = 0;
    proof {
        assert(out@ =~= anchors@.take(0));
    }
    while i < n
        invariant
            n == anchors@.len(),
            0 <= i <= n,
            ids_ascending(out@),
            out@.to_multiset() == anchors@.take(i as int).to_multiset(),
        decreases n - i,
    {
        let a = anchors[i];
        let m = out.len();
        let mut pos: usize = 0;
        while pos < m && out[pos].id <= a.id
            invariant
                m == out@.len(),
                0 <= pos <= m,
                forall|j: int| 0 <= j < pos ==> #[trigger] out@[j].id <= a.id,
            decreases m - pos,
        {
            pos = pos + 1;
        }
        let ghost before = out@;
        assert forall|j: int| pos <= j < m implies #[trigger] before[j].id > a.id by {
            if j > pos {
                assert(before[pos as int].id <= before[j].id);
            }
        }
        out.insert(pos, a);
        proof {
            assert(out@ == before.insert(pos as int, a));
            to_multiset_insert(before, pos as int, a);
            assert(anchors@.take(i + 1) =~= anchors@.take(i as int).push(a));
            to_multiset_build(anchors@.take(i as int), a);
            assert forall|x: int, y: int| 0 <= x < y < out@.len() implies #[trigger] out@[x].id
                <= #[trigger] out@[y].id by {
                if y < pos {
                    assert(before[x].id <= before[y].id);
                } else if y == pos {
                } else if x < pos {
                    assert(before[x].id <= a.id && a.id < before[y - 1].id);
                } else if x == pos {
                    assert(before[y - 1].id > a.id);
                } else {
                    assert(before[x - 1].id <= before[y - 1].id);
                }
            }
        }
        i = i + 1;
    }
    assert(anchors@.take(n as int) =~= anchors@);
    out
}

/// Sprite-region encoding that hands the regions back in ascending order of
/// correlation id, whatever order the packer placed the tiles in.
pub struct AmethystOrderedFormat;

impl AmethystOrderedFormat {
    /// One region per anchor, in ascending order of correlation id.
    pub fn encode(dimensions: (u32, u32), sprites: &Vec<SpriteAnchor>) -> (r: Vec<SpriteRegion>)
        ensures
            exists|s: Seq<SpriteAnchor>|
                {
                    &&& ids_ascending(s)
                    &&& s.to_multiset() == sprites@.to_multiset()
                    &&& r@.len() == s.len()
                    &&& forall|i: int| 0 <= i < s.len() ==> #[trigger] r@[i] == region_of(dimensions, s[i])
                },
    {
        let sorted = sort_by_id(sprites);
        let mut out: Vec<SpriteRegion> = Vec::new();
        let mut i: usize = 0;
        while i < sorted.len()
            invariant
                0 <= i <= sorted@.len(),
                out@.len() == i,
                forall|j: int| 0 <= j < i ==> #[trigger] out@[j] == region_of(dimensions, sorted@[j]),
            decreases sorted@.len() - i,
        {
            let a = sorted[i];
            out.push(SpriteRegion {
                atlas_width: dimensions.0,
                atlas_height: dimensions.1,
                left: a.position.0,
                top: a.position.1,
                width: a.dimensions.0,
                height: a.dimensions.1,
            });
            i = i + 1;
        }
        out
    }
}

} // verus!
