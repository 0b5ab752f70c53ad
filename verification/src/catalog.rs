//! The catalog: for every path the candidates that were recorded under it,
//! kept in ascending order of the paths.
//!
//! The order of the paths is the one defined in `order`, and it decides the
//! order of the output. The catalog therefore keeps its paths itself, in a
//! vector that is strictly ascending, and finds a path by bisection.

use vstd::prelude::*;

use crate::candidate::Index;
use crate::listing::{
    candidate_at, hits, lemma_hits_push, lemma_misses_push, misses, named_listing,
};
use crate::order::{
    ascending, lemma_path_lt_irreflexive, lemma_path_lt_transitive, path_lt, Order, PathView,
};
use crate::path::EntryPath;

verus! {

/// One path of the catalog with its candidates, in the order in which they
/// were recorded.
#[derive(Debug)]
pub struct Slot {
    path: EntryPath,
    candidates: Vec<Index>,
}

/// An ordered map from paths to non-empty lists of candidates.
#[derive(Debug)]
pub struct Catalog {
    slots: Vec<Slot>,
}

/// In a strictly ascending sequence a path stands at one position only.
pub proof fn lemma_ascending_position(paths: Seq<PathView>, k: int)
    requires
        ascending(paths),
        0 <= k < paths.len(),
    ensures
        paths.contains(paths[k]),
        paths.index_of(paths[k]) == k,
{
    let m = paths.index_of(paths[k]);
    assert(0 <= m < paths.len() && paths[m] == paths[k]);
    lemma_path_lt_irreflexive(paths[k]);
}

impl Catalog {
    /// The paths of the catalog, in the order in which they are visited.
    pub closed spec fn paths(&self) -> Seq<PathView> {
        Seq::new(self.slots@.len(), |k: int| self.slots@[k].path@)
    }

    /// The candidates of each path, in the order of `paths`.
    pub closed spec fn lists(&self) -> Seq<Seq<Index>> {
        Seq::new(self.slots@.len(), |k: int| self.slots@[k].candidates@)
    }

    /// The candidates recorded under `path`, oldest first; none where the
    /// catalog does not hold the path.
    pub open spec fn candidates_of(&self, path: PathView) -> Seq<Index> {
        if self.paths().contains(path) {
            self.lists()[self.paths().index_of(path)]
        } else {
            Seq::empty()
        }
    }

    /// The paths are strictly ascending, so none occurs twice, and each has
    /// at least one candidate.
    pub open spec fn wf(&self) -> bool {
        &&& self.paths().len() == self.lists().len()
        &&& ascending(self.paths())
        &&& forall|k: int| 0 <= k < self.lists().len() ==> (#[trigger] self.lists()[k]).len() > 0
    }

    /// A catalog without paths.
    pub fn new() -> (r: Self)
        ensures
            r.wf(),
            r.paths().len() == 0,
    {
        Catalog { slots: Vec::new() }
    }

    /// The number of paths.
    pub fn len(&self) -> (n: usize)
        ensures
            n == self.paths().len(),
    {
        self.slots.len()
    }

    /// The path at position `k` of the ascending order.
    pub fn path(&self, k: usize) -> (r: &EntryPath)
        requires
            k < self.paths().len(),
        ensures
            r@ == self.paths()[k as int],
    {
        &self.slots[k].path
    }

    /// The candidates of the path at position `k` of the ascending order.
    pub fn candidates(&self, k: usize) -> (r: &Vec<Index>)
        requires
            k < self.paths().len(),
        ensures
            r@ == self.lists()[k as int],
    {
        proof {
            assert(self.lists().len() == self.slots@.len());
        }
        &self.slots[k].candidates
    }

    /// Looks `path` up by bisection. `Ok` gives the position at which the
    /// catalog holds the path; `Err` gives the position at which it would
    /// have to stand: every path before it comes before `path`, and every
    /// path from it on comes after.
    pub fn locate(&self, path: &EntryPath) -> (r: Result<usize, usize>)
        requires
            self.wf(),
        ensures
            match r {
                Ok(k) => k < self.paths().len() && self.paths()[k as int] == path@,
                Err(k) => {
                    &&& k <= self.paths().len()
                    &&& forall|i: int| 0 <= i < k ==> path_lt(#[trigger] self.paths()[i], path@)
                    &&& forall|i: int|
                        k <= i < self.paths().len() ==> path_lt(path@, #[trigger] self.paths()[i])
                },
            },
    {
        let mut lo: usize = 0;
        let mut hi: usize = self.slots.len();
        while lo < hi
            invariant
                self.wf(),
                lo <= hi <= self.slots@.len(),
                self.slots@.len() == self.paths().len(),
                forall|i: int| 0 <= i < lo ==> path_lt(#[trigger] self.paths()[i], path@),
                forall|i: int| hi <= i < self.paths().len() ==> path_lt(path@, #[trigger] self.paths()[i]),
            decreases hi - lo,
        {
            let mid = lo + (hi - lo) / 2;
            match self.slots[mid].path.compare(path) {
                Order::Before => {
                    proof {
                        assert forall|i: int| 0 <= i < mid + 1 implies path_lt(
                            #[trigger] self.paths()[i],
                            path@,
                        ) by {
                            if i < mid {
                                assert(path_lt(self.paths()[i], self.paths()[mid as int]));
                                lemma_path_lt_transitive(self.paths()[i], self.paths()[mid as int], path@);
                            }
                        }
                    }
                    lo = mid + 1;
                },
                Order::Same => {
                    return Ok(mid);
                },
                Order::After => {
                    proof {
                        assert forall|i: int| mid <= i < self.paths().len() implies path_lt(
                            path@,
                            #[trigger] self.paths()[i],
                        ) by {
                            if i > mid {
                                assert(path_lt(self.paths()[mid as int], self.paths()[i]));
                                lemma_path_lt_transitive(path@, self.paths()[mid as int], self.paths()[i]);
                            }
                        }
                    }
                    hi = mid;
                },
            }
        }
        Err(lo)
    }

    /// Records `candidate` under `path`, after the candidates that the path
    /// already has. Every other path keeps its candidates.
    pub fn record(&mut self, path: &EntryPath, candidate: Index)
        requires
            old(self).wf(),
        ensures
            final(self).wf(),
            final(self).candidates_of(path@) == old(self).candidates_of(path@).push(candidate),
            forall|q: PathView|
                q != path@ ==> #[trigger] final(self).candidates_of(q) == old(self).candidates_of(q),
            forall|q: PathView|
                #[trigger] final(self).paths().contains(q) <==> q == path@ || old(self).paths().contains(q),
    {
        let ghost before = *self;
        let k = match self.locate(path) {
            Ok(k) => {
                self.slots[k].candidates.push(candidate);
                proof {
                    assert(self.paths() =~= before.paths());
                    assert(self.lists() =~= before.lists().update(
                        k as int,
                        before.lists()[k as int].push(candidate),
                    ));
                    lemma_ascending_position(before.paths(), k as int);
                    assert forall|q: PathView| q != path@ implies #[trigger] self.candidates_of(q)
                        == before.candidates_of(q) by {
                        if before.paths().contains(q) {
                            let m = before.paths().index_of(q);
                            assert(m != k);
                        }
                    }
                }
                return ;
            },
            Err(k) => k,
        };
        proof {
            lemma_path_lt_irreflexive(path@);
            assert forall|i: int| 0 <= i < before.paths().len() implies before.paths()[i] != path@ by {
                if i < k {
                    assert(path_lt(before.paths()[i], path@));
                } else {
                    assert(path_lt(path@, before.paths()[i]));
                }
            }
            assert(!before.paths().contains(path@));
        }
        let mut fresh: Vec<Index> = Vec::new();
        fresh.push(candidate);
        self.slots.insert(k, Slot { path: path.duplicate(), candidates: fresh });
        proof {
            let old_paths = before.paths();
            let new_paths = self.paths();
            assert(new_paths =~= old_paths.insert(k as int, path@));
            assert(self.lists() =~= before.lists().insert(k as int, seq![candidate]));
            assert forall|i: int, j: int| 0 <= i < j < new_paths.len() implies path_lt(
                #[trigger] new_paths[i],
                #[trigger] new_paths[j],
            ) by {
                if j < k {
                    assert(path_lt(old_paths[i], old_paths[j]));
                } else if j == k {
                    assert(path_lt(old_paths[i], path@));
                } else if i == k {
                    assert(path_lt(path@, old_paths[j - 1]));
                } else if i < k {
                    assert(path_lt(old_paths[i], old_paths[j - 1]));
                } else {
                    assert(path_lt(old_paths[i - 1], old_paths[j - 1]));
                }
            }
            assert(ascending(new_paths));
            lemma_ascending_position(new_paths, k as int);
            assert(self.candidates_of(path@) =~= before.candidates_of(path@).push(candidate));
            assert forall|q: PathView| q != path@ implies #[trigger] self.candidates_of(q)
                == before.candidates_of(q) by {
                if old_paths.contains(q) {
                    let m = old_paths.index_of(q);
                    let n = if m < k { m } else { m + 1 };
                    assert(new_paths[n] == q);
                    lemma_ascending_position(new_paths, n);
                } else if new_paths.contains(q) {
                    let n = new_paths.index_of(q);
                    let m = if n < k { n } else { n - 1 };
                    assert(old_paths[m] == q);
                }
            }
            assert forall|q: PathView| #[trigger] self.paths().contains(q) <==> q == path@
                || before.paths().contains(q) by {
                if old_paths.contains(q) {
                    let m = old_paths.index_of(q);
                    let n = if m < k { m } else { m + 1 };
                    assert(new_paths[n] == q);
                }
                if new_paths.contains(q) && q != path@ {
                    let n = new_paths.index_of(q);
                    let m = if n < k { n } else { n - 1 };
                    assert(old_paths[m] == q);
                }
            }
        }
    }

    /// Records the entries of one container: for each entry of `names` that
    /// has a path with at least one component, in directory order, a candidate
    /// under that path that refers to the entry's position in container
    /// `archive_index`. Every path gains exactly the container's hits. The
    /// positions of the entries that were skipped are handed back.
    pub fn record_listing(&mut self, names: &Vec<Option<EntryPath>>, archive_index: usize) -> (skipped:
        Vec<usize>)
        requires
            old(self).wf(),
        ensures
            final(self).wf(),
            forall|p: PathView| #[trigger]
                final(self).candidates_of(p) == old(self).candidates_of(p) + hits(
                    named_listing(names@),
                    archive_index as int,
                    p,
                ),
            skipped@ == misses(named_listing(names@)),
    {
        let ghost before = *self;
        let mut skipped: Vec<usize> = Vec::new();
        let ghost fresh = named_listing(names@);
        proof {
            assert(fresh.take(0) =~= Seq::empty());
            assert forall|p: PathView| #[trigger]
                self.candidates_of(p) == before.candidates_of(p) + hits(
                    fresh.take(0),
                    archive_index as int,
                    p,
                ) by {
                assert(before.candidates_of(p) + Seq::<Index>::empty() =~= before.candidates_of(p));
            }
        }
        let mut j: usize = 0;
        while j < names.len()
            invariant
                before == *old(self),
                fresh == named_listing(names@),
                j <= names@.len(),
                self.wf(),
                skipped@ == misses(fresh.take(j as int)),
                forall|p: PathView| #[trigger]
                    self.candidates_of(p) == before.candidates_of(p) + hits(
                        fresh.take(j as int),
                        archive_index as int,
                        p,
                    ),
            decreases names.len() - j,
        {
            let ghost held = *self;
            let ghost seen = fresh.take(j as int);
            proof {
                assert(fresh.take(j + 1) =~= seen.push(fresh[j as int]));
                lemma_misses_push(seen, fresh[j as int]);
            }
            let mut recorded = false;
            match &names[j] {
                Some(path) => {
                    if !path.is_empty() {
                        let candidate = Index { archive_index, file_index: j };
                        self.record(path, candidate);
                        recorded = true;
                        proof {
                            assert(fresh[j as int] == Some(path@));
                            assert(candidate == candidate_at(archive_index as int, j as int));
                            assert forall|p: PathView| #[trigger]
                                self.candidates_of(p) == before.candidates_of(p) + hits(
                                    fresh.take(j + 1),
                                    archive_index as int,
                                    p,
                                ) by {
                                lemma_hits_push(seen, fresh[j as int], archive_index as int, p);
                                let earlier = hits(seen, archive_index as int, p);
                                assert(held.candidates_of(p) == before.candidates_of(p) + earlier);
                                if p == path@ {
                                    assert(before.candidates_of(p) + earlier.push(candidate) =~= (
                                    before.candidates_of(p) + earlier).push(candidate));
                                }
                            }
                        }
                    }
                },
                None => {},
            }
            if !recorded {
                skipped.push(j);
            }
            proof {
                if !recorded {
                    assert(fresh[j as int] is None);
                    assert forall|p: PathView| #[trigger]
                        self.candidates_of(p) == before.candidates_of(p) + hits(
                            fresh.take(j + 1),
                            archive_index as int,
                            p,
                        ) by {
                        lemma_hits_push(seen, fresh[j as int], archive_index as int, p);
                        assert(held.candidates_of(p) == before.candidates_of(p) + hits(
                            seen,
                            archive_index as int,
                            p,
                        ));
                    }
                }
            }
            j += 1;
        }
        proof {
            assert(fresh.take(names@.len() as int) =~= fresh);
        }
        skipped
    }
}

} // verus!
