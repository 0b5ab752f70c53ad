//! Candidates: references to one entry of one ingested container, and the
//! built-in policy that picks among the candidates of a path.

use vstd::prelude::*;

verus! {

/// A reference to one entry of one ingested container. It owns nothing: it is
/// the coordinate under which the entry is found again.
#[derive(Debug, Copy, Clone)]
pub struct Index {
    /// The ordinal of the container, counted from 0 in the order of ingestion.
    pub archive_index: usize,
    /// The position of the entry in its container's directory, counted from 0.
    pub file_index: usize,
}

/// Position `k` holds the most recently ingested candidate of `candidates`:
/// no candidate has a greater container ordinal, and every candidate after it
/// has a smaller one. Among candidates of the same container the last wins.
pub open spec fn is_latest(candidates: Seq<Index>, k: int) -> bool {
    &&& 0 <= k < candidates.len()
    &&& forall|j: int|
        0 <= j < candidates.len() ==> (#[trigger] candidates[j]).archive_index
            <= candidates[k].archive_index
    &&& forall|j: int|
        k < j < candidates.len() ==> (#[trigger] candidates[j]).archive_index
            < candidates[k].archive_index
}

/// The position of the most recently ingested candidate.
pub open spec fn latest_position(candidates: Seq<Index>) -> int {
    choose|k: int| is_latest(candidates, k)
}

/// The most recently ingested candidate of a non-empty list.
pub open spec fn latest(candidates: Seq<Index>) -> Index {
    candidates[latest_position(candidates)]
}

/// At most one position holds the most recently ingested candidate, so
/// `latest` is that candidate wherever one is found.
pub proof fn lemma_latest_unique(candidates: Seq<Index>, k: int)
    requires
        is_latest(candidates, k),
    ensures
        latest_position(candidates) == k,
        latest(candidates) == candidates[k],
{
    let m = latest_position(candidates);
    assert(is_latest(candidates, m));
    if m < k {
        assert(candidates[k].archive_index < candidates[m].archive_index);
        assert(candidates[m].archive_index <= candidates[k].archive_index);
    } else if k < m {
        assert(candidates[m].archive_index < candidates[k].archive_index);
        assert(candidates[k].archive_index <= candidates[m].archive_index);
    }
}

/// Every non-empty list has a most recently ingested candidate, and it is one
/// of the list.
pub proof fn lemma_latest_exists(candidates: Seq<Index>)
    requires
        candidates.len() > 0,
    ensures
        is_latest(candidates, latest_position(candidates)),
        candidates.contains(latest(candidates)),
    decreases candidates.len(),
{
    if candidates.len() == 1 {
        assert(is_latest(candidates, 0));
    } else {
        let front = candidates.drop_last();
        lemma_latest_exists(front);
        let m = latest_position(front);
        let last = candidates.len() - 1;
        assert(forall|j: int| 0 <= j < front.len() ==> front[j] == candidates[j]);
        if candidates[last].archive_index >= candidates[m].archive_index {
            assert forall|j: int| 0 <= j < candidates.len() implies (#[trigger] candidates[j]).archive_index
                <= candidates[last].archive_index by {
                if j < last {
                    assert(front[j].archive_index <= front[m].archive_index);
                }
            }
            assert(is_latest(candidates, last));
        } else {
            assert forall|j: int| 0 <= j < candidates.len() implies (#[trigger] candidates[j]).archive_index
                <= candidates[m].archive_index by {
                if j < last {
                    assert(front[j].archive_index <= front[m].archive_index);
                }
            }
            assert forall|j: int| m < j < candidates.len() implies (#[trigger] candidates[j]).archive_index
                < candidates[m].archive_index by {
                if j < last {
                    assert(front[j].archive_index < front[m].archive_index);
                }
            }
            assert(is_latest(candidates, m));
        }
    }
    let k = latest_position(candidates);
    assert(candidates[k] == latest(candidates));
}

/// The built-in policy: the candidate of the most recently ingested container
/// wins, and among several candidates of that container the last one.
pub fn default_file_selector(indices: &[Index]) -> (r: Index)
    requires
        indices@.len() > 0,
    ensures
        r == latest(indices@),
        indices@.contains(r),
{
    let mut best: usize = 0;
    let mut i: usize = 1;
    while i < indices.len()
        invariant
            1 <= i <= indices@.len(),
            is_latest(indices@.take(i as int), best as int),
        decreases indices.len() - i,
    {
        let ghost seen = indices@.take(i as int);
        let ghost next = indices@.take(i + 1);
        proof {
            assert(forall|j: int| 0 <= j < i ==> seen[j] == next[j]);
            assert(next[i as int] == indices@[i as int]);
        }
        if indices[i].archive_index >= indices[best].archive_index {
            proof {
                assert forall|j: int| 0 <= j < next.len() implies (#[trigger] next[j]).archive_index
                    <= next[i as int].archive_index by {
                    if j < i {
                        assert(seen[j].archive_index <= seen[best as int].archive_index);
                    }
                }
            }
            best = i;
        } else {
            proof {
                assert forall|j: int| 0 <= j < next.len() implies (#[trigger] next[j]).archive_index
                    <= next[best as int].archive_index by {
                    if j < i {
                        assert(seen[j].archive_index <= seen[best as int].archive_index);
                    }
                }
                assert forall|j: int| best < j < next.len() implies (#[trigger] next[j]).archive_index
                    < next[best as int].archive_index by {
                    if j < i {
                        assert(seen[j].archive_index < seen[best as int].archive_index);
                    }
                }
            }
        }
        i += 1;
    }
    proof {
        assert(indices@.take(i as int) =~= indices@);
        lemma_latest_unique(indices@, best as int);
    }
    indices[best]
}

} // verus!
