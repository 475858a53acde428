//! Filling a map's cell grid with dense tile indices through a remapper.
use vstd::prelude::*;
use crate::error::LoadError;
use crate::gid_map::{GidMap, lookup};
use crate::usage::{LayerGrid, SparseGidMap, sparse_index};

verus! {

/// Resolves the global id of a cell to a dense index into the atlas.
pub trait GidRemap {
    spec fn inv(&self) -> bool;

    /// The index that `gid` resolves to, if any.
    spec fn remap_spec(&self, gid: u32) -> Option<int>;

    fn remap(&self, gid: u32) -> (r: Option<u64>)
        requires
            self.inv(),
        ensures
            r matches Some(v) ==> self.remap_spec(gid) == Some(v as int),
            r is None ==> self.remap_spec(gid) is None,
    ;
}

impl GidRemap for GidMap {
    open spec fn inv(&self) -> bool {
        self.wf()
    }

    /// The empty id 0 gives index 0; any other id its dense index.
    open spec fn remap_spec(&self, gid: u32) -> Option<int> {
        if gid == 0 {
            Some(0)
        } else {
            lookup(self@, gid as int)
        }
    }

    fn remap(&self, gid: u32) -> (r: Option<u64>) {
        if gid == 0 {
            Some(0)
        } else {
            self.map(gid)
        }
    }
}

impl GidRemap for SparseGidMap {
    open spec fn inv(&self) -> bool {
        self.wf()
    }

    /// The empty id 0 gives index 0; any other id its compacted index.
    open spec fn remap_spec(&self, gid: u32) -> Option<int> {
        if gid == 0 {
            Some(0)
        } else {
            sparse_index(self@, gid)
        }
    }

    fn remap(&self, gid: u32) -> (r: Option<u64>) {
        if gid == 0 {
            Some(0)
        } else {
            self.map(gid)
        }
    }
}

/// Each cell of the row resolves to the index in the same place of `out`.
pub open spec fn row_remapped<R: GidRemap>(remap: &R, row: Seq<u32>, out: Seq<u64>) -> bool {
    &&& out.len() == row.len()
    &&& forall|x: int| 0 <= x < row.len() ==> remap.remap_spec(#[trigger] row[x]) == Some(out[x] as int)
}

pub open spec fn layer_remapped<R: GidRemap>(remap: &R, layer: Seq<Vec<u32>>, out: Seq<Vec<u64>>) -> bool {
    &&& out.len() == layer.len()
    &&& forall|y: int| 0 <= y < layer.len() ==> row_remapped(remap, (#[trigger] layer[y])@, out[y]@)
}

/// `out` has the grid's shape, and holds the index of every cell.
pub open spec fn grid_remapped<R: GidRemap>(remap: &R, layers: Seq<Vec<Vec<u32>>>, out: Seq<Vec<Vec<u64>>>) -> bool {
    &&& out.len() == layers.len()
    &&& forall|l: int| 0 <= l < layers.len() ==> layer_remapped(remap, (#[trigger] layers[l])@, out[l]@)
}

/// Every cell of the grid resolves.
pub open spec fn grid_resolves<R: GidRemap>(remap: &R, layers: Seq<Vec<Vec<u32>>>) -> bool {
    forall|l: int, y: int, x: int|
        0 <= l < layers.len() && 0 <= y < layers[l]@.len() && 0 <= x < layers[l]@[y]@.len()
            ==> (#[trigger] remap.remap_spec(layers[l]@[y]@[x])) is Some
}

/// The dense index of every cell, layer by layer, row by row. Fails at the
/// first cell whose id the remapper cannot resolve.
pub fn remap_grid<R: GidRemap>(remap: &R, layers: &LayerGrid) -> (r: Result<Vec<Vec<Vec<u64>>>, LoadError>)
    requires
        remap.inv(),
    ensures
        r is Ok <==> grid_resolves(remap, layers@),
        r matches Ok(g) ==> grid_remapped(remap, layers@, g@),
        r matches Err(e) ==> exists|l: int, y: int, x: int|
            0 <= l < layers@.len() && 0 <= y < layers@[l]@.len() && 0 <= x < layers@[l]@[y]@.len()
                && #[trigger] layers@[l]@[y]@[x] == layers@[l]@[y]@[x]
                && remap.remap_spec(layers@[l]@[y]@[x]) is None
                && e == (LoadError::CorruptMapReference { gid: layers@[l]@[y]@[x] }),
{
    let mut out: Vec<Vec<Vec<u64>>> = Vec::new();
    let mut l: usize = 0;
    while l < layers.len()
        invariant
            remap.inv(),
            0 <= l <= layers@.len(),
            out@.len() == l,
            forall|a: int| 0 <= a < l ==> layer_remapped(remap, (#[trigger] layers@[a])@, out@[a]@),
        decreases layers@.len() - l,
    {
        let layer = &layers[l];
        let mut out_layer: Vec<Vec<u64>> = Vec::new();
        let mut y: usize = 0;
        while y < layer.len()
            invariant
                remap.inv(),
                0 <= l < layers@.len(),
                *layer == layers@[l as int],
                0 <= y <= layer@.len(),
                out_layer@.len() == y,
                forall|b: int| 0 <= b < y ==> row_remapped(remap, (#[trigger] layer@[b])@, out_layer@[b]@),
            decreases layer@.len() - y,
        {
            let row = &layer[y];
            let mut out_row: Vec<u64> = Vec::new();
            let mut x: usize = 0;
            while x < row.len()
                invariant
                    remap.inv(),
                    0 <= l < layers@.len(),
                    *layer == layers@[l as int],
                    0 <= y < layer@.len(),
                    *row == layer@[y as int],
                    0 <= x <= row@.len(),
                    out_row@.len() == x,
                    forall|c: int| 0 <= c < x ==> remap.remap_spec(#[trigger] row@[c]) == Some(out_row@[c] as int),
                decreases row@.len() - x,
            {
                let gid = row[x];
                match remap.remap(gid) {
                    Some(v) => {
                        out_row.push(v);
                    },
                    None => {
                        assert(layers@[l as int]@[y as int]@[x as int] == gid);
                        return Err(LoadError::CorruptMapReference { gid });
                    },
                }
                x = x + 1;
            }
            out_layer.push(out_row);
            y = y + 1;
        }
        out.push(out_layer);
        l = l + 1;
    }
    proof {
        assert forall|a: int, b: int, c: int|
            0 <= a < layers@.len() && 0 <= b < layers@[a]@.len() && 0 <= c < layers@[a]@[b]@.len()
                implies (#[trigger] remap.remap_spec(layers@[a]@[b]@[c])) is Some by {
            assert(layer_remapped(remap, layers@[a]@, out@[a]@));
            assert(row_remapped(remap, layers@[a]@[b]@, out@[a]@[b]@));
        }
    }
    Ok(out)
}

} // verus!
