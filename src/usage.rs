//! The sparse side of remapping: which global ids a map's layers use, and
//! the dense indices given to exactly those ids.
use vstd::prelude::*;

verus! {

/// A grid of global ids, indexed `[layer][row][column]`; 0 marks an empty cell.
pub type LayerGrid = Vec<Vec<Vec<u32>>>;

/// Some cell of the grid holds `gid`.
pub open spec fn grid_holds(layers: Seq<Vec<Vec<u32>>>, gid: u32) -> bool {
    exists|l: int, y: int, x: int|
        0 <= l < layers.len() && 0 <= y < layers[l]@.len() && 0 <= x < layers[l]@[y]@.len()
            && #[trigger] layers[l]@[y]@[x] == gid
}

pub open spec fn strictly_ascending(s: Seq<u32>) -> bool {
    forall|i: int, j: int| 0 <= i < j < s.len() ==> #[trigger] s[i] < #[trigger] s[j]
}

/// Inserts `g` at its place in an ascending list, unless it is there already.
fn insert_sorted(v: &mut Vec<u32>, g: u32)
    requires
        strictly_ascending(old(v)@),
    ensures
        strictly_ascending(final(v)@),
        forall|x: u32| #[trigger] final(v)@.contains(x) <==> (old(v)@.contains(x) || x == g),
{
    let n = v.len();
    let mut i: usize = 0;
    while i < n && v[i] < g
        invariant
            n == v@.len(),
            0 <= i <= n,
            forall|j: int| 0 <= j < i ==> #[trigger] v@[j] < g,
        decreases n - i,
    {
        i = i + 1;
    }
    if i < n && v[i] == g {
        assert(v@[i as int] == g);
        return;
    }
    let ghost before = v@;
    assert forall|j: int| i <= j < n implies #[trigger] before[j] > g by {
        if j > i {
            assert(before[i as int] < before[j]);
        }
    }
    v.insert(i, g);
    assert(v@ == before.insert(i as int, g));
    assert forall|a: int, b: int| 0 <= a < b < v@.len() implies #[trigger] v@[a] < #[trigger] v@[b] by {
        if b < i {
            assert(before[a] < before[b]);
        } else if b == i {
        } else if a < i {
            assert(before[a] < g && g < before[b - 1]);
        } else if a == i {
            assert(before[b - 1] > g);
        } else {
            assert(before[a - 1] < before[b - 1]);
        }
    }
    assert forall|x: u32| #[trigger] v@.contains(x) <==> (before.contains(x) || x == g) by {
        if v@.contains(x) {
            let k = choose|k: int| 0 <= k < v@.len() && v@[k] == x;
            if k < i {
                assert(before[k] == x);
            } else if k > i {
                assert(before[k - 1] == x);
            }
        }
        if before.contains(x) {
            let k = choose|k: int| 0 <= k < before.len() && before[k] == x;
            if k < i {
                assert(v@[k] == x);
            } else {
                assert(v@[k + 1] == x);
            }
        }
        if x == g {
            assert(v@[i as int] == g);
        }
    }
}

pub open spec fn in_row_before(row: Seq<u32>, x: int, g: u32) -> bool {
    exists|c: int| 0 <= c < x && c < row.len() && #[trigger] row[c] == g
}

pub open spec fn in_rows_before(layer: Seq<Vec<u32>>, y: int, g: u32) -> bool {
    exists|b: int| 0 <= b < y && b < layer.len() && #[trigger] in_row_before(layer[b]@, layer[b]@.len() as int, g)
}

pub open spec fn in_layers_before(layers: Seq<Vec<Vec<u32>>>, l: int, g: u32) -> bool {
    exists|a: int| 0 <= a < l && a < layers.len() && #[trigger] in_rows_before(layers[a]@, layers[a]@.len() as int, g)
}

proof fn lemma_grid_holds(layers: Seq<Vec<Vec<u32>>>, g: u32)
    ensures
        grid_holds(layers, g) <==> in_layers_before(layers, layers.len() as int, g),
{
    if grid_holds(layers, g) {
        let (l, y, x) = choose|l: int, y: int, x: int|
            0 <= l < layers.len() && 0 <= y < layers[l]@.len() && 0 <= x < layers[l]@[y]@.len()
                && #[trigger] layers[l]@[y]@[x] == g;
        assert(in_row_before(layers[l]@[y]@, layers[l]@[y]@.len() as int, g));
        assert(in_rows_before(layers[l]@, layers[l]@.len() as int, g));
    }
    if in_layers_before(layers, layers.len() as int, g) {
        let l = choose|a: int| 0 <= a < layers.len() && a < layers.len() && #[trigger] in_rows_before(layers[a]@, layers[a]@.len() as int, g);
        let y = choose|b: int| 0 <= b < layers[l]@.len() && b < layers[l]@.len() && #[trigger] in_row_before(layers[l]@[b]@, layers[l]@[b]@.len() as int, g);
        let x = choose|c: int| 0 <= c < layers[l]@[y]@.len() && c < layers[l]@[y]@.len() && #[trigger] layers[l]@[y]@[c] == g;
        assert(layers[l]@[y]@[x] == g);
    }
}

/// The distinct non-empty global ids that the grid holds, in ascending order.
pub fn collect_gid_usage(layers: &LayerGrid) -> (r: Vec<u32>)
    ensures
        strictly_ascending(r@),
        forall|g: u32| #[trigger] r@.contains(g) <==> (g != 0 && grid_holds(layers@, g)),
{
    let mut gids: Vec<u32> = Vec::new();
    let mut l: usize = 0;
    while l < layers.len()
        invariant
            0 <= l <= layers@.len(),
            strictly_ascending(gids@),
            forall|g: u32|
                #[trigger] gids@.contains(g) <==> (g != 0 && in_layers_before(layers@, l as int, g)),
        decreases layers@.len() - l,
    {
        let layer = &layers[l];
        let mut y: usize = 0;
        while y < layer.len()
            invariant
                0 <= l < layers@.len(),
                layer == layers@[l as int],
                0 <= y <= layer@.len(),
                strictly_ascending(gids@),
                forall|g: u32|
                    #[trigger] gids@.contains(g) <==> (g != 0 && (in_layers_before(layers@, l as int, g)
                        || in_rows_before(layer@, y as int, g))),
            decreases layer@.len() - y,
        {
            let row = &layer[y];
            let mut x: usize = 0;
            while x < row.len()
                invariant
                    0 <= l < layers@.len(),
                    layer == layers@[l as int],
                    0 <= y < layer@.len(),
                    row == layer@[y as int],
                    0 <= x <= row@.len(),
                    strictly_ascending(gids@),
                    forall|g: u32|
                        #[trigger] gids@.contains(g) <==> (g != 0 && (in_layers_before(layers@, l as int, g)
                            || in_rows_before(layer@, y as int, g) || in_row_before(row@, x as int, g))),
                decreases row@.len() - x,
            {
                let g = row[x];
                if g != 0 {
                    insert_sorted(&mut gids, g);
                }
                assert forall|h: u32| #[trigger] in_row_before(row@, x + 1, h) <==> (in_row_before(row@, x as int, h) || h == g) by {
                    if h == g {
                        assert(row@[x as int] == g);
                    }
                    if in_row_before(row@, x + 1, h) {
                        let c = choose|c: int| 0 <= c < x + 1 && c < row@.len() && #[trigger] row@[c] == h;
                        if c < x {
                            assert(in_row_before(row@, x as int, h));
                        }
                    }
                }
                x = x + 1;
            }
            assert forall|h: u32| #[trigger] in_rows_before(layer@, y + 1, h) <==> (in_rows_before(layer@, y as int, h) || in_row_before(row@, x as int, h)) by {
                if in_rows_before(layer@, y + 1, h) {
                    let b = choose|b: int| 0 <= b < y + 1 && b < layer@.len() && #[trigger] in_row_before(layer@[b]@, layer@[b]@.len() as int, h);
                    if b < y {
                        assert(in_rows_before(layer@, y as int, h));
                    }
                }
                if in_row_before(row@, x as int, h) {
                    assert(in_row_before(layer@[y as int]@, layer@[y as int]@.len() as int, h));
                }
            }
            y = y + 1;
        }
        assert forall|h: u32| #[trigger] in_layers_before(layers@, l + 1, h) <==> (in_layers_before(layers@, l as int, h) || in_rows_before(layer@, y as int, h)) by {
            if in_layers_before(layers@, l + 1, h) {
                let a = choose|a: int| 0 <= a < l + 1 && a < layers@.len() && #[trigger] in_rows_before(layers@[a]@, layers@[a]@.len() as int, h);
                if a < l {
                    assert(in_layers_before(layers@, l as int, h));
                }
            }
            if in_rows_before(layer@, y as int, h) {
                assert(in_rows_before(layers@[l as int]@, layers@[l as int]@.len() as int, h));
            }
        }
        l = l + 1;
    }
    proof {
        assert forall|g: u32| #[trigger] gids@.contains(g) <==> (g != 0 && grid_holds(layers@, g)) by {
            lemma_grid_holds(layers@, g);
        }
    }
    gids
}

/// The dense index of `gid` under sparse compaction: one more than its
/// position among the used ids, index 0 being kept for the empty cell.
pub open spec fn sparse_index(used: Seq<u32>, gid: u32) -> Option<int> {
    if exists|n: int| 0 <= n < used.len() && used[n] == gid {
        Some((choose|n: int| 0 <= n < used.len() && used[n] == gid) + 1)
    } else {
        None
    }
}

/// Maps exactly the global ids that a map uses onto `1..=n`, in ascending
/// order of id.
#[derive(Debug)]
pub struct SparseGidMap {
    used: Vec<u32>,
}

impl View for SparseGidMap {
    type V = Seq<u32>;

    closed spec fn view(&self) -> Seq<u32> {
        self.used@
    }
}

impl SparseGidMap {
    pub open spec fn wf(&self) -> bool {
        strictly_ascending(self@) && !self@.contains(0)
    }

    /// The map of the ids that the grid uses.
    pub fn from_layers(layers: &LayerGrid) -> (r: SparseGidMap)
        ensures
            r.wf(),
            forall|g: u32| #[trigger] r@.contains(g) <==> (g != 0 && grid_holds(layers@, g)),
    {
        SparseGidMap { used: collect_gid_usage(layers) }
    }

    /// The used ids, ascending.
    pub fn used(&self) -> (r: &Vec<u32>)
        ensures
            r@ == self@,
    {
        &self.used
    }

    /// The dense index of `gid`; `None` where the map does not use it
    /// (the empty id 0 among them).
    pub fn map(&self, gid: u32) -> (r: Option<u64>)
        requires
            self.wf(),
        ensures
            r matches Some(v) ==> sparse_index(self@, gid) == Some(v as int),
            r is None ==> sparse_index(self@, gid) is None,
    {
        let n = self.used.len();
        let mut lo: usize = 0;
        let mut hi: usize = n;
        while lo < hi
            invariant
                n == self@.len(),
                strictly_ascending(self@),
                0 <= lo <= hi <= n,
                forall|j: int| 0 <= j < lo ==> #[trigger] self@[j] < gid,
                forall|j: int| hi <= j < n ==> #[trigger] self@[j] > gid,
            decreases hi - lo,
        {
            let mid = lo + (hi - lo) / 2;
            let v = self.used[mid];
            if v == gid {
                proof {
                    let c = choose|c: int| 0 <= c < self@.len() && self@[c] == gid;
                    if c < mid {
                        assert(self@[c] < self@[mid as int]);
                    }
                    if c > mid {
                        assert(self@[mid as int] < self@[c]);
                    }
                }
                return Some(mid as u64 + 1);
            } else if v < gid {
                assert forall|j: int| 0 <= j < mid + 1 implies #[trigger] self@[j] < gid by {
                    if j < mid {
                        assert(self@[j] < self@[mid as int]);
                    }
                }
                lo = mid + 1;
            } else {
                assert forall|j: int| mid <= j < n implies #[trigger] self@[j] > gid by {
                    if j > mid {
                        assert(self@[mid as int] < self@[j]);
                    }
                }
                hi = mid;
            }
        }
        assert(!(exists|c: int| 0 <= c < self@.len() && self@[c] == gid));
        None
    }
}

/// Two ascending lists of the same ids are equal.
pub proof fn lemma_ascending_unique(a: Seq<u32>, b: Seq<u32>)
    requires
        strictly_ascending(a),
        strictly_ascending(b),
        forall|x: u32| #[trigger] a.contains(x) <==> b.contains(x),
    ensures
        a == b,
    decreases a.len(),
{
    if a.len() == 0 {
        if b.len() > 0 {
            assert(b.contains(b[0]));
            assert(a.contains(b[0]));
        }
        assert(a =~= b);
    } else {
        assert(a.contains(a[0]));
        assert(b.contains(a[0]));
        assert(b.contains(b[0]));
        assert(a.contains(b[0]));
        let j = choose|j: int| 0 <= j < b.len() && b[j] == a[0];
        let i = choose|i: int| 0 <= i < a.len() && a[i] == b[0];
        if j > 0 {
            assert(b[0] < b[j]);
        }
        if i > 0 {
            assert(a[0] < a[i]);
        }
        assert(a[0] == b[0]);
        let a1 = a.drop_first();
        let b1 = b.drop_first();
        assert forall|x: int, y: int| 0 <= x < y < a1.len() implies #[trigger] a1[x] < #[trigger] a1[y] by {
            assert(a[x + 1] < a[y + 1]);
        }
        assert forall|x: int, y: int| 0 <= x < y < b1.len() implies #[trigger] b1[x] < #[trigger] b1[y] by {
            assert(b[x + 1] < b[y + 1]);
        }
        assert forall|x: u32| #[trigger] a1.contains(x) <==> b1.contains(x) by {
            if a1.contains(x) {
                let k = choose|k: int| 0 <= k < a1.len() && a1[k] == x;
                assert(a[0] < a[k + 1]);
                assert(a.contains(x));
                let m = choose|m: int| 0 <= m < b.len() && b[m] == x;
                assert(m != 0);
                assert(b1[m - 1] == x);
            }
            if b1.contains(x) {
                let k = choose|k: int| 0 <= k < b1.len() && b1[k] == x;
                assert(b[0] < b[k + 1]);
                assert(b.contains(x));
                assert(a.contains(x));
                let m = choose|m: int| 0 <= m < a.len() && a[m] == x;
                assert(m != 0);
                assert(a1[m - 1] == x);
            }
        }
        lemma_ascending_unique(a1, b1);
        assert forall|k: int| 0 <= k < a.len() implies a[k] == b[k] by {
            if k > 0 {
                assert(a1[k - 1] == b1[k - 1]);
            }
        }
        assert(a =~= b);
    }
}

} // verus!
