//! The cache from tile-set name to atlas handle, shared between map loads
//! so that a tile set is packed once.
use vstd::prelude::*;

verus! {

/// The handle cached under `name`, if any.
pub open spec fn cached(entries: Seq<(Seq<char>, u64)>, name: Seq<char>) -> Option<u64> {
    if exists|i: int| 0 <= i < entries.len() && (#[trigger] entries[i]).0 == name {
        Some(entries[choose|i: int| 0 <= i < entries.len() && (#[trigger] entries[i]).0 == name].1)
    } else {
        None
    }
}

/// No name is cached twice.
pub open spec fn names_unique(entries: Seq<(Seq<char>, u64)>) -> bool {
    forall|i: int, j: int| 0 <= i < j < entries.len() ==> (#[trigger] entries[i]).0 != (#[trigger] entries[j]).0
}

/// `after` caches `handle` under `name`, and what `before` cached under
/// every other name.
pub open spec fn cached_with(before: Seq<(Seq<char>, u64)>, after: Seq<(Seq<char>, u64)>, name: Seq<char>, handle: u64) -> bool {
    forall|n: Seq<char>| #[trigger] cached(after, n) == if n == name { Some(handle) } else { cached(before, n) }
}

/// What claiming `name` with the handle `fresh` does to a cache: a cached
/// name gives its handle, owes no packing and changes nothing; a new name
/// is cached with `fresh`, which it gives, owing the packing.
pub open spec fn claim_post(
    before: Seq<(Seq<char>, u64)>,
    name: Seq<char>,
    fresh: u64,
    r: (u64, bool),
    after: Seq<(Seq<char>, u64)>,
) -> bool {
    match cached(before, name) {
        Some(h) => r == (h, false) && after == before,
        None => r == (fresh, true) && cached_with(before, after, name, fresh),
    }
}

/// A tile set claimed twice gives the same handle both times, and owes
/// its packing only the first time.
pub proof fn lemma_claim_twice(
    c0: Seq<(Seq<char>, u64)>,
    c1: Seq<(Seq<char>, u64)>,
    c2: Seq<(Seq<char>, u64)>,
    name: Seq<char>,
    fresh1: u64,
    fresh2: u64,
    r1: (u64, bool),
    r2: (u64, bool),
)
    requires
        claim_post(c0, name, fresh1, r1, c1),
        claim_post(c1, name, fresh2, r2, c2),
    ensures
        r2.0 == r1.0,
        !r2.1,
        c2 == c1,
{
    match cached(c0, name) {
        Some(h) => {},
        None => {
            assert(cached(c1, name) == Some(fresh1));
        },
    }
}

/// Releasing a name just claimed for packing restores the cache as it
/// was before the claim, for every name.
pub proof fn lemma_claim_release(
    c0: Seq<(Seq<char>, u64)>,
    c1: Seq<(Seq<char>, u64)>,
    c2: Seq<(Seq<char>, u64)>,
    name: Seq<char>,
    fresh: u64,
    r: (u64, bool),
)
    requires
        claim_post(c0, name, fresh, r, c1),
        r.1,
        cached_without(c1, c2, name),
    ensures
        forall|n: Seq<char>| #[trigger] cached(c2, n) == cached(c0, n),
{
    assert forall|n: Seq<char>| #[trigger] cached(c2, n) == cached(c0, n) by {
        assert(cached(c1, n) == cached(c1, n));
    }
}

/// `after` caches nothing under `name`, and what `before` cached under
/// every other name.
pub open spec fn cached_without(before: Seq<(Seq<char>, u64)>, after: Seq<(Seq<char>, u64)>, name: Seq<char>) -> bool {
    forall|n: Seq<char>| #[trigger] cached(after, n) == if n == name { None } else { cached(before, n) }
}

proof fn lemma_cached_at(entries: Seq<(Seq<char>, u64)>, i: int)
    requires
        names_unique(entries),
        0 <= i < entries.len(),
    ensures
        cached(entries, entries[i].0) == Some(entries[i].1),
{
    let name = entries[i].0;
    let j = choose|j: int| 0 <= j < entries.len() && (#[trigger] entries[j]).0 == name;
    if j < i {
        assert(entries[j].0 != entries[i].0);
    }
    if j > i {
        assert(entries[i].0 != entries[j].0);
    }
}

/// Atlas handles of loaded tile sets, by tile-set name.
#[derive(Debug, Default)]
pub struct Tilesets {
    entries: Vec<(String, u64)>,
}

impl View for Tilesets {
    type V = Seq<(Seq<char>, u64)>;

    closed spec fn view(&self) -> Seq<(Seq<char>, u64)> {
        self.entries@.map_values(|e: (String, u64)| (e.0@, e.1))
    }
}

impl Tilesets {
    pub open spec fn wf(&self) -> bool {
        names_unique(self@)
    }

    pub fn new() -> (r: Tilesets)
        ensures
            r.wf(),
            forall|n: Seq<char>| #[trigger] cached(r@, n) is None,
    {
        let r = Tilesets { entries: Vec::new() };
        assert(r@ =~= Seq::<(Seq<char>, u64)>::empty());
        r
    }

    fn find(&self, set_name: &String) -> (r: Option<usize>)
        requires
            self.wf(),
        ensures
            r matches Some(i) ==> i < self@.len() && self@[i as int].0 == set_name@,
            r is None ==> cached(self@, set_name@) is None,
    {
        let mut i: usize = 0;
        while i < self.entries.len()
            invariant
                0 <= i <= self.entries@.len(),
                forall|j: int| 0 <= j < i ==> (#[trigger] self@[j]).0 != set_name@,
            decreases self.entries@.len() - i,
        {
            if self.entries[i].0 == *set_name {
                return Some(i);
            }
            assert(self@[i as int].0 == self.entries@[i as int].0@);
            i = i + 1;
        }
        None
    }

    /// The handle cached under `set_name`, if any.
    pub fn get(&self, set_name: &String) -> (r: Option<u64>)
        requires
            self.wf(),
        ensures
            r == cached(self@, set_name@),
    {
        match self.find(set_name) {
            Some(i) => {
                proof {
                    lemma_cached_at(self@, i as int);
                }
                Some(self.entries[i].1)
            },
            None => None,
        }
    }

    /// Caches `handle` under `set_name`, in place of any handle cached
    /// there before.
    pub fn push(&mut self, set_name: String, handle: u64)
        requires
            old(self).wf(),
        ensures
            final(self).wf(),
            cached_with(old(self)@, final(self)@, set_name@, handle),
    {
        let ghost before = self@;
        match self.find(&set_name) {
            Some(i) => {
                let ghost name = set_name@;
                self.entries.set(i, (set_name, handle));
                proof {
                    assert(self@ =~= before.update(i as int, (name, handle)));
                    assert forall|a: int, b: int| 0 <= a < b < self@.len() implies (#[trigger] self@[a]).0 != (#[trigger] self@[b]).0 by {
                        assert(before[a].0 != before[b].0);
                    }
                    assert forall|n: Seq<char>| #[trigger] cached(self@, n) == if n == name { Some(handle) } else { cached(before, n) } by {
                        if n == name {
                            lemma_cached_at(self@, i as int);
                        } else if exists|j: int| 0 <= j < before.len() && (#[trigger] before[j]).0 == n {
                            let j = choose|j: int| 0 <= j < before.len() && (#[trigger] before[j]).0 == n;
                            lemma_cached_at(before, j);
                            assert(self@[j] == before[j]);
                            lemma_cached_at(self@, j);
                        } else {
                            if exists|j: int| 0 <= j < self@.len() && (#[trigger] self@[j]).0 == n {
                                let j = choose|j: int| 0 <= j < self@.len() && (#[trigger] self@[j]).0 == n;
                                assert(before[j].0 == n);
                            }
                        }
                    }
                }
            },
            None => {
                let ghost name = set_name@;
                self.entries.push((set_name, handle));
                proof {
                    assert(self@ =~= before.push((name, handle)));
                    assert forall|a: int, b: int| 0 <= a < b < self@.len() implies (#[trigger] self@[a]).0 != (#[trigger] self@[b]).0 by {
                        if b < before.len() {
                            assert(before[a].0 != before[b].0);
                        } else {
                            assert(self@[a] == before[a]);
                        }
                    }
                    assert forall|n: Seq<char>| #[trigger] cached(self@, n) == if n == name { Some(handle) } else { cached(before, n) } by {
                        if n == name {
                            lemma_cached_at(self@, before.len() as int);
                        } else if exists|j: int| 0 <= j < before.len() && (#[trigger] before[j]).0 == n {
                            let j = choose|j: int| 0 <= j < before.len() && (#[trigger] before[j]).0 == n;
                            lemma_cached_at(before, j);
                            assert(self@[j] == before[j]);
                            lemma_cached_at(self@, j);
                        } else {
                            if exists|j: int| 0 <= j < self@.len() && (#[trigger] self@[j]).0 == n {
                                let j = choose|j: int| 0 <= j < self@.len() && (#[trigger] self@[j]).0 == n;
                                assert(j < before.len());
                                assert(before[j].0 == n);
                            }
                        }
                    }
                }
            },
        }
    }

    /// Looks `set_name` up and, where it is not cached, caches `fresh`
    /// under it, in one step. Returns the handle to use, and whether the
    /// caller owes the packing of the tile set.
    pub fn claim(&mut self, set_name: &String, fresh: u64) -> (r: (u64, bool))
        requires
            old(self).wf(),
        ensures
            final(self).wf(),
            claim_post(old(self)@, set_name@, fresh, r, final(self)@),
    {
        match self.get(set_name) {
            Some(h) => (h, false),
            None => {
                self.push(set_name.clone(), fresh);
                (fresh, true)
            },
        }
    }

    /// Drops what is cached under `set_name`, if anything: the way back
    /// from a claim whose packing failed.
    pub fn release(&mut self, set_name: &String)
        requires
            old(self).wf(),
        ensures
            final(self).wf(),
            cached_without(old(self)@, final(self)@, set_name@),
    {
        let ghost before = self@;
        match self.find(set_name) {
            None => {},
            Some(i) => {
                self.entries.remove(i);
                proof {
                    assert(self@ =~= before.remove(i as int));
                    assert forall|a: int, b: int| 0 <= a < b < self@.len() implies (#[trigger] self@[a]).0 != (#[trigger] self@[b]).0 by {
                        if b < i {
                            assert(before[a].0 != before[b].0);
                        } else if a < i {
                            assert(self@[b] == before[b + 1]);
                            assert(before[a].0 != before[b + 1].0);
                        } else {
                            assert(before[a + 1].0 != before[b + 1].0);
                        }
                    }
                    assert forall|n: Seq<char>| #[trigger] cached(self@, n) == if n == set_name@ { None } else { cached(before, n) } by {
                        if exists|j: int| 0 <= j < self@.len() && (#[trigger] self@[j]).0 == n {
                            let j = choose|j: int| 0 <= j < self@.len() && (#[trigger] self@[j]).0 == n;
                            let k = if j < i { j } else { j + 1 };
                            assert(before[k] == self@[j]);
                            if n == set_name@ {
                                assert(before[i as int].0 != before[k].0);
                            }
                            lemma_cached_at(self@, j);
                            lemma_cached_at(before, k);
                        } else if n != set_name@ {
                            if exists|j: int| 0 <= j < before.len() && (#[trigger] before[j]).0 == n {
                                let j = choose|j: int| 0 <= j < before.len() && (#[trigger] before[j]).0 == n;
                                assert(j != i);
                                let k = if j < i { j } else { j - 1 };
                                assert(self@[k] == before[j]);
                            }
                        }
                    }
                }
            },
        }
    }
}

} // verus!
