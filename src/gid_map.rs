//! The dense remapper: every tile set owns a contiguous run of global ids,
//! and a global id resolves to its position in the concatenation of runs.
use vstd::prelude::*;
use vstd::set_lib::{lemma_int_range, lemma_set_disjoint_lens, set_int_range};

verus! {

/// A run of global ids `[first, first + len)` owned by one tile set.
#[derive(Clone, Copy, PartialEq, Eq, Structural, Debug)]
pub struct GidRange {
    pub first: u32,
    pub len: u32,
}

/// One past the largest id that any run can cover.
pub open spec fn id_space_end() -> int {
    0x2_0000_0000
}

/// The collision test between a registered run and a new one.
pub open spec fn overlaps(r: GidRange, first: int, len: int) -> bool {
    r.first < first + len && first < r.first + r.len
}

/// The new run `[first, first + len)` collides with a registered run.
pub open spec fn collides(rs: Seq<GidRange>, first: int, len: int) -> bool {
    exists|i: int| 0 <= i < rs.len() && #[trigger] overlaps(rs[i], first, len)
}

/// No two registered runs collide.
pub open spec fn ranges_valid(rs: Seq<GidRange>) -> bool {
    forall|i: int, j: int|
        0 <= i < j < rs.len() ==> !#[trigger] overlaps(rs[i], rs[j].first as int, rs[j].len as int)
}

pub open spec fn covers(r: GidRange, gid: int) -> bool {
    r.first <= gid < r.first + r.len
}

/// Total length of the runs.
pub open spec fn sum_lens(rs: Seq<GidRange>) -> int
    decreases rs.len(),
{
    if rs.len() == 0 {
        0
    } else {
        sum_lens(rs.drop_last()) + rs.last().len
    }
}

/// Dense index of the first id of run `k`: the lengths of the runs before it.
pub open spec fn stride(rs: Seq<GidRange>, k: int) -> int {
    sum_lens(rs.take(k))
}

/// Run `k` is the first run that covers `gid`.
pub open spec fn resolves_at(rs: Seq<GidRange>, gid: int, k: int) -> bool {
    0 <= k < rs.len() && covers(rs[k], gid) && forall|j: int|
        0 <= j < k ==> !#[trigger] covers(rs[j], gid)
}

/// The dense index of `gid`: its offset in the first run covering it, plus
/// that run's stride; `None` where no run covers it.
pub open spec fn lookup(rs: Seq<GidRange>, gid: int) -> Option<int> {
    if exists|k: int| resolves_at(rs, gid, k) {
        let k = choose|k: int| resolves_at(rs, gid, k);
        Some(stride(rs, k) + gid - rs[k].first)
    } else {
        None
    }
}

/// The ids covered by the runs.
pub open spec fn covered(rs: Seq<GidRange>) -> Set<int>
    decreases rs.len(),
{
    if rs.len() == 0 {
        Set::empty()
    } else {
        covered(rs.drop_last()) + set_int_range(
            rs.last().first as int,
            rs.last().first + rs.last().len,
        )
    }
}

proof fn lemma_in_covered(rs: Seq<GidRange>, g: int)
    requires
        covered(rs).contains(g),
    ensures
        exists|i: int| 0 <= i < rs.len() && #[trigger] covers(rs[i], g),
    decreases rs.len(),
{
    if rs.len() > 0 {
        let p = rs.drop_last();
        if covered(p).contains(g) {
            lemma_in_covered(p, g);
            let i = choose|i: int| 0 <= i < p.len() && #[trigger] covers(p[i], g);
            assert(covers(rs[i], g));
        } else {
            assert(covers(rs[rs.len() - 1], g));
        }
    }
}

/// Runs that do not collide cover as many ids as their lengths add up to,
/// all below `id_space_end`, so that their total length is bounded.
proof fn lemma_sum_bounded(rs: Seq<GidRange>)
    requires
        ranges_valid(rs),
    ensures
        covered(rs).finite(),
        covered(rs).len() == sum_lens(rs),
        covered(rs).subset_of(set_int_range(0, id_space_end())),
        sum_lens(rs) <= id_space_end(),
    decreases rs.len(),
{
    if rs.len() > 0 {
        let p = rs.drop_last();
        let last = rs.last();
        assert forall|i: int, j: int| 0 <= i < j < p.len() implies !overlaps(
            p[i],
            p[j].first as int,
            p[j].len as int,
        ) by {
            assert(rs[j] == p[j]);
        }
        lemma_sum_bounded(p);
        let tail = set_int_range(last.first as int, last.first + last.len);
        lemma_int_range(last.first as int, last.first + last.len);
        assert forall|g: int| covered(p).contains(g) implies !tail.contains(g) by {
            lemma_in_covered(p, g);
            let i = choose|i: int| 0 <= i < p.len() && #[trigger] covers(p[i], g);
            assert(rs[i] == p[i]);
            assert(rs[rs.len() - 1] == rs[rs.len() - 1]);
            assert(!overlaps(rs[i], last.first as int, last.len as int));
        }
        assert(covered(p).disjoint(tail));
        lemma_set_disjoint_lens(covered(p), tail);
        lemma_int_range(0, id_space_end());
        vstd::set_lib::lemma_len_subset(covered(rs), set_int_range(0, id_space_end()));
    }
}

proof fn lemma_stride_step(rs: Seq<GidRange>, k: int)
    requires
        0 <= k < rs.len(),
    ensures
        stride(rs, k + 1) == stride(rs, k) + rs[k].len,
{
    assert(rs.take(k + 1).drop_last() =~= rs.take(k));
}

proof fn lemma_prefix_valid(rs: Seq<GidRange>, k: int)
    requires
        ranges_valid(rs),
        0 <= k <= rs.len(),
    ensures
        ranges_valid(rs.take(k)),
{
    let p = rs.take(k);
    assert forall|i: int, j: int| 0 <= i < j < p.len() implies !overlaps(
        p[i],
        p[j].first as int,
        p[j].len as int,
    ) by {
        assert(rs[j] == p[j]);
    }
}

/// On a map whose runs do not collide, an id covered by run `k` resolves
/// inside run `k`, at the stride of `k` plus its offset in the run.
pub proof fn lemma_lookup_in_run(rs: Seq<GidRange>, k: int, gid: int)
    requires
        ranges_valid(rs),
        0 <= k < rs.len(),
        covers(rs[k], gid),
    ensures
        lookup(rs, gid) == Some(stride(rs, k) + gid - rs[k].first),
{
    assert forall|j: int| 0 <= j < k implies !#[trigger] covers(rs[j], gid) by {
        if covers(rs[j], gid) {
            assert(overlaps(rs[j], rs[k].first as int, rs[k].len as int));
        }
    }
    assert(resolves_at(rs, gid, k));
    let c = choose|c: int| resolves_at(rs, gid, c);
    if c < k {
        assert(!covers(rs[c], gid));
    }
    if c > k {
        assert(!covers(rs[k], gid));
    }
}

/// An id that no run covers is unresolved.
pub proof fn lemma_lookup_outside(rs: Seq<GidRange>, gid: int)
    requires
        forall|k: int| 0 <= k < rs.len() ==> !#[trigger] covers(rs[k], gid),
    ensures
        lookup(rs, gid) is None,
{
}

/// The last id of a non-empty run resolves to the last index of that run,
/// not to the first index of the run registered after it.
pub proof fn lemma_lookup_run_end(rs: Seq<GidRange>, k: int)
    requires
        ranges_valid(rs),
        0 <= k < rs.len(),
        rs[k].len > 0,
    ensures
        lookup(rs, rs[k].first + rs[k].len - 1) == Some(stride(rs, k) + rs[k].len - 1),
        k + 1 < rs.len() ==> lookup(rs, rs[k].first + rs[k].len - 1) != Some(stride(rs, k + 1)),
{
    lemma_lookup_in_run(rs, k, rs[k].first + rs[k].len - 1);
    if k + 1 < rs.len() {
        lemma_stride_step(rs, k);
    }
}

proof fn lemma_sum_lens_grow(rs: Seq<GidRange>, k: int)
    requires
        0 <= k <= rs.len(),
    ensures
        sum_lens(rs.take(k)) <= sum_lens(rs),
    decreases rs.len() - k,
{
    if k < rs.len() {
        lemma_sum_lens_grow(rs, k + 1);
        assert(rs.take(k + 1).drop_last() =~= rs.take(k));
    } else {
        assert(rs.take(k) =~= rs);
    }
}

/// A resolved id lands below the total length of the runs.
pub proof fn lemma_lookup_below_total(rs: Seq<GidRange>, gid: int)
    requires
        lookup(rs, gid) is Some,
    ensures
        0 <= lookup(rs, gid)->Some_0 < sum_lens(rs),
{
    let k = choose|k: int| resolves_at(rs, gid, k);
    lemma_stride_step(rs, k);
    lemma_sum_lens_grow(rs, k + 1);
    lemma_sum_lens_nonneg(rs.take(k));
}

/// Run lengths add up to no less than zero.
pub proof fn lemma_sum_lens_nonneg(rs: Seq<GidRange>)
    ensures
        sum_lens(rs) >= 0,
    decreases rs.len(),
{
    if rs.len() > 0 {
        lemma_sum_lens_nonneg(rs.drop_last());
    }
}

/// Whether registering two runs succeeds does not depend on their order:
/// registering `a` then `b` succeeds exactly when registering `b` then `a`
/// does.
pub proof fn lemma_collision_order_independent(rs: Seq<GidRange>, a: GidRange, b: GidRange)
    requires
        ranges_valid(rs),
    ensures
        (!collides(rs, a.first as int, a.len as int) && !collides(
            rs.push(a),
            b.first as int,
            b.len as int,
        )) == (!collides(rs, b.first as int, b.len as int) && !collides(
            rs.push(b),
            a.first as int,
            a.len as int,
        )),
{
    let ra = rs.push(a);
    let rb = rs.push(b);
    assert(ra[rs.len() as int] == a && rb[rs.len() as int] == b);
    if collides(ra, b.first as int, b.len as int) {
        let i = choose|i: int| 0 <= i < ra.len() && #[trigger] overlaps(ra[i], b.first as int, b.len as int);
        if i < rs.len() {
            assert(ra[i] == rs[i]);
        } else {
            assert(overlaps(rb[rs.len() as int], a.first as int, a.len as int));
        }
    }
    if collides(rb, a.first as int, a.len as int) {
        let i = choose|i: int| 0 <= i < rb.len() && #[trigger] overlaps(rb[i], a.first as int, a.len as int);
        if i < rs.len() {
            assert(rb[i] == rs[i]);
        } else {
            assert(overlaps(ra[rs.len() as int], b.first as int, b.len as int));
        }
    }
    if collides(rs, a.first as int, a.len as int) {
        let i = choose|i: int| 0 <= i < rs.len() && #[trigger] overlaps(rs[i], a.first as int, a.len as int);
        assert(rb[i] == rs[i]);
    }
    if collides(rs, b.first as int, b.len as int) {
        let i = choose|i: int| 0 <= i < rs.len() && #[trigger] overlaps(rs[i], b.first as int, b.len as int);
        assert(ra[i] == rs[i]);
    }
}

/// Maps global tile ids onto dense indices, one contiguous run per tile set,
/// in the order in which the tile sets were registered.
#[derive(Debug)]
pub struct GidMap {
    ranges: Vec<GidRange>,
}

impl View for GidMap {
    type V = Seq<GidRange>;

    closed spec fn view(&self) -> Seq<GidRange> {
        self.ranges@
    }
}

impl GidMap {
    pub open spec fn wf(&self) -> bool {
        ranges_valid(self@)
    }

    pub fn new() -> (r: GidMap)
        ensures
            r.wf(),
            r@ == Seq::<GidRange>::empty(),
    {
        GidMap { ranges: Vec::new() }
    }

    /// The registered runs, in registration order.
    pub fn ranges(&self) -> (r: &Vec<GidRange>)
        ensures
            r@ == self@,
    {
        &self.ranges
    }

    /// Registers the run `[first_gid, first_gid + len)`. Returns `false`, and
    /// leaves the map as it was, where the run collides with one already
    /// registered.
    pub fn add_set(&mut self, first_gid: u32, len: u32) -> (r: bool)
        requires
            old(self).wf(),
        ensures
            final(self).wf(),
            r == !collides(old(self)@, first_gid as int, len as int),
            r ==> final(self)@ == old(self)@.push(GidRange { first: first_gid, len }),
            !r ==> final(self)@ == old(self)@,
    {
        let n = self.ranges.len();
        let mut i: usize = 0;
        while i < n
            invariant
                n == self.ranges@.len(),
                self@ == old(self)@,
                ranges_valid(self@),
                0 <= i <= n,
                forall|j: int|
                    0 <= j < i ==> !#[trigger] overlaps(
                        self.ranges@[j],
                        first_gid as int,
                        len as int,
                    ),
            decreases n - i,
        {
            let r = self.ranges[i];
            if (r.first as u64) < first_gid as u64 + len as u64 && (first_gid as u64) < r.first as u64
                + r.len as u64 {
                assert(overlaps(self.ranges@[i as int], first_gid as int, len as int));
                return false;
            }
            i = i + 1;
        }
        let ghost before = self@;
        self.ranges.push(GidRange { first: first_gid, len });
        assert forall|a: int, b: int| 0 <= a < b < self@.len() implies !overlaps(
            self@[a],
            self@[b].first as int,
            self@[b].len as int,
        ) by {
            if b < before.len() {
                assert(before[a] == self@[a] && before[b] == self@[b]);
            }
        }
        true
    }

    /// The dense index of `gid`; `None` where no registered run covers it.
    pub fn map(&self, gid: u32) -> (r: Option<u64>)
        requires
            self.wf(),
        ensures
            r matches Some(v) ==> lookup(self@, gid as int) == Some(v as int),
            r is None ==> lookup(self@, gid as int) is None,
    {
        let ghost rs = self@;
        let n = self.ranges.len();
        let mut acc: u64 = 0;
        let mut i: usize = 0;
        while i < n
            invariant
                rs == self@,
                n == rs.len(),
                ranges_valid(rs),
                0 <= i <= n,
                acc == stride(rs, i as int),
                forall|j: int| 0 <= j < i ==> !#[trigger] covers(rs[j], gid as int),
            decreases n - i,
        {
            let r = self.ranges[i];
            proof {
                lemma_stride_step(rs, i as int);
                lemma_prefix_valid(rs, i + 1);
                lemma_sum_bounded(rs.take(i + 1));
            }
            if r.first <= gid && (gid as u64) < r.first as u64 + r.len as u64 {
                proof {
                    assert(resolves_at(rs, gid as int, i as int));
                    let k = choose|k: int| resolves_at(rs, gid as int, k);
                    if k < i {
                        assert(!covers(rs[k], gid as int));
                    }
                    if k > i {
                        assert(!covers(rs[i as int], gid as int));
                    }
                }
                return Some(acc + (gid - r.first) as u64);
            }
            acc = acc + r.len as u64;
            i = i + 1;
        }
        None
    }
}

} // verus!
