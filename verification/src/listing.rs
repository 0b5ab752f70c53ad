//! What a set of ingested containers amounts to: under which paths their
//! entries are indexed, which candidates each path has, and in which order
//! the paths are visited.

use vstd::prelude::*;

use crate::candidate::Index;
use crate::codec::{entry_name, path_view, Entries};
use crate::path::EntryPath;
use crate::order::{
    ascending, lemma_path_lt_asymmetric, lemma_path_lt_irreflexive, path_lt, PathView,
};

verus! {

/// The listing of a container: for each entry, in directory order, the path
/// under which it is indexed, or `None` where it is skipped.
pub type Listing = Seq<Option<PathView>>;

/// The path under which an entry is indexed: the safe relative path that the
/// codec makes of its name, unless that path has no component. An entry
/// without such a path is skipped.
pub open spec fn indexed(name: Option<PathView>) -> Option<PathView> {
    match name {
        Some(path) => if path.len() > 0 {
            Some(path)
        } else {
            None
        },
        None => None,
    }
}

/// The listing of a container: for each entry, in directory order, the path
/// under which it is indexed, or `None` where it is skipped.
pub open spec fn listing(entries: Entries) -> Listing {
    Seq::new(entries.len(), |i: int| indexed(entry_name(entries, i)))
}

/// The listing that a list of paths stands for: an entry without a path, or
/// with a path of no component, is skipped.
pub open spec fn named_listing(names: Seq<Option<EntryPath>>) -> Listing {
    Seq::new(names.len(), |i: int| indexed(path_view(names[i])))
}

/// Entry `file` of container `archive` is indexed under `path`.
pub open spec fn lists(
    listings: Seq<Listing>,
    archive: int,
    file: int,
    path: PathView,
) -> bool {
    &&& 0 <= archive < listings.len()
    &&& 0 <= file < listings[archive].len()
    &&& listings[archive][file] == Some(path)
}

/// Some entry of some container is indexed under `path`.
pub open spec fn listed(listings: Seq<Listing>, path: PathView) -> bool {
    exists|archive: int, file: int| #[trigger] lists(listings, archive, file, path)
}

/// The candidate that refers to entry `file` of container `archive`.
pub open spec fn candidate_at(archive: int, file: int) -> Index {
    Index { archive_index: archive as usize, file_index: file as usize }
}

/// The candidates that one container contributes to `path`: its entries
/// indexed under that path, in directory order.
pub open spec fn hits(listing: Listing, archive: int, path: PathView) -> Seq<
    Index,
>
    decreases listing.len(),
{
    if listing.len() == 0 {
        Seq::empty()
    } else {
        let earlier = hits(listing.drop_last(), archive, path);
        if listing.last() == Some(path) {
            earlier.push(candidate_at(archive, listing.len() - 1))
        } else {
            earlier
        }
    }
}

/// The positions of the entries that a listing skips, in directory order.
pub open spec fn misses(listing: Listing) -> Seq<usize>
    decreases listing.len(),
{
    if listing.len() == 0 {
        Seq::empty()
    } else if listing.last() is None {
        misses(listing.drop_last()).push((listing.len() - 1) as usize)
    } else {
        misses(listing.drop_last())
    }
}

/// The candidates of `path`: container by container in the order of
/// ingestion, and within a container in directory order.
pub open spec fn candidates(listings: Seq<Listing>, path: PathView) -> Seq<
    Index,
>
    decreases listings.len(),
{
    if listings.len() == 0 {
        Seq::empty()
    } else {
        candidates(listings.drop_last(), path) + hits(listings.last(), listings.len() - 1, path)
    }
}

/// Candidate `a` was met before candidate `b`: it belongs to an earlier
/// container, or to the same container and an earlier entry.
pub open spec fn met_before(a: Index, b: Index) -> bool {
    a.archive_index < b.archive_index || (a.archive_index == b.archive_index && a.file_index
        < b.file_index)
}

/// Every count of containers and of entries fits the integers that a
/// candidate is made of.
pub open spec fn countable(listings: Seq<Listing>) -> bool {
    &&& listings.len() <= usize::MAX
    &&& forall|a: int| 0 <= a < listings.len() ==> (#[trigger] listings[a]).len() <= usize::MAX
}

/// `paths` is the order in which the paths of `listings` are visited: it
/// holds exactly the paths that have a candidate, in strictly ascending
/// order.
pub open spec fn is_visit_order(
    listings: Seq<Listing>,
    paths: Seq<PathView>,
) -> bool {
    &&& ascending(paths)
    &&& forall|p: PathView| #[trigger] paths.contains(p) <==> candidates(listings, p).len() > 0
}

/// The order in which the paths of `listings` are visited.
pub open spec fn visit_order(listings: Seq<Listing>) -> Seq<PathView> {
    choose|paths: Seq<PathView>| is_visit_order(listings, paths)
}

/// One more entry at the end of a listing adds one candidate to its path and
/// none to any other.
pub proof fn lemma_hits_push(
    listing: Listing,
    entry: Option<PathView>,
    archive: int,
    path: PathView,
)
    ensures
        hits(listing.push(entry), archive, path) == if entry == Some(path) {
            hits(listing, archive, path).push(candidate_at(archive, listing.len() as int))
        } else {
            hits(listing, archive, path)
        },
{
    assert(listing.push(entry).drop_last() =~= listing);
}

/// One more entry at the end of a listing adds its position to the skipped
/// ones exactly where it is skipped.
pub proof fn lemma_misses_push(listing: Listing, entry: Option<PathView>)
    ensures
        misses(listing.push(entry)) == if entry is None {
            misses(listing).push(listing.len() as usize)
        } else {
            misses(listing)
        },
{
    assert(listing.push(entry).drop_last() =~= listing);
}

/// The skipped positions are exactly the positions at which the listing
/// holds no path, each once and in ascending order.
pub proof fn lemma_misses(listing: Listing)
    requires
        listing.len() <= usize::MAX,
    ensures
        forall|k: int|
            0 <= k < misses(listing).len() ==> (#[trigger] misses(listing)[k]) < listing.len()
                && listing[misses(listing)[k] as int] is None,
        forall|k: int, m: int|
            0 <= k < m < misses(listing).len() ==> (#[trigger] misses(listing)[k]) < (
            #[trigger] misses(listing)[m]),
        forall|i: int|
            0 <= i < listing.len() && (#[trigger] listing[i]) is None ==> misses(listing).contains(
                i as usize,
            ),
    decreases listing.len(),
{
    if listing.len() > 0 {
        let front = listing.drop_last();
        let earlier = misses(front);
        let all = misses(listing);
        let last = listing.len() - 1;
        lemma_misses(front);
        assert forall|k: int| 0 <= k < all.len() implies (#[trigger] all[k]) < listing.len()
            && listing[all[k] as int] is None by {
            if k < earlier.len() {
                assert(all[k] == earlier[k]);
                assert(front[earlier[k] as int] == listing[earlier[k] as int]);
            }
        }
        assert forall|k: int, m: int| 0 <= k < m < all.len() implies (#[trigger] all[k]) < (
        #[trigger] all[m]) by {
            assert(all[k] == earlier[k]);
            if m < earlier.len() {
                assert(all[m] == earlier[m]);
            }
        }
        assert forall|i: int| 0 <= i < listing.len() && (#[trigger] listing[i]) is None implies all.contains(
            i as usize,
        ) by {
            if i < last {
                assert(front[i] == listing[i]);
                let k = earlier.index_of(i as usize);
                assert(all[k] == i as usize);
            } else {
                assert(all[all.len() - 1] == i as usize);
            }
        }
    }
}

/// One more container adds its hits after the candidates of the others.
pub proof fn lemma_candidates_push(
    listings: Seq<Listing>,
    listing: Listing,
    path: PathView,
)
    ensures
        candidates(listings.push(listing), path) == candidates(listings, path) + hits(
            listing,
            listings.len() as int,
            path,
        ),
{
    assert(listings.push(listing).drop_last() =~= listings);
}

/// The hits of a container are exactly its entries indexed under the path,
/// each once and in directory order.
pub proof fn lemma_hits(listing: Listing, archive: int, path: PathView)
    requires
        0 <= archive <= usize::MAX,
        listing.len() <= usize::MAX,
    ensures
        forall|k: int|
            0 <= k < hits(listing, archive, path).len() ==> {
                let c = #[trigger] hits(listing, archive, path)[k];
                &&& c.archive_index == archive
                &&& c.file_index < listing.len()
                &&& listing[c.file_index as int] == Some(path)
            },
        forall|k: int, m: int|
            0 <= k < m < hits(listing, archive, path).len() ==> (#[trigger] hits(
                listing,
                archive,
                path,
            )[k]).file_index < (#[trigger] hits(listing, archive, path)[m]).file_index,
        forall|i: int|
            0 <= i < listing.len() && listing[i] == Some(path) ==> hits(
                listing,
                archive,
                path,
            ).contains(#[trigger] candidate_at(archive, i)),
    decreases listing.len(),
{
    if listing.len() > 0 {
        let front = listing.drop_last();
        let earlier = hits(front, archive, path);
        let all = hits(listing, archive, path);
        lemma_hits(front, archive, path);
        let last = listing.len() - 1;
        assert forall|i: int| 0 <= i < listing.len() && listing[i] == Some(path) implies all.contains(
            #[trigger] candidate_at(archive, i),
        ) by {
            if i < last {
                assert(front[i] == listing[i]);
                assert(earlier.contains(candidate_at(archive, i)));
                let k = earlier.index_of(candidate_at(archive, i));
                assert(all[k] == candidate_at(archive, i));
            } else {
                assert(all[all.len() - 1] == candidate_at(archive, i));
            }
        }
        assert forall|k: int| 0 <= k < all.len() implies {
            let c = #[trigger] all[k];
            &&& c.archive_index == archive
            &&& c.file_index < listing.len()
            &&& listing[c.file_index as int] == Some(path)
        } by {
            if k < earlier.len() {
                assert(all[k] == earlier[k]);
                assert(front[earlier[k].file_index as int] == listing[earlier[k].file_index as int]);
            }
        }
        assert forall|k: int, m: int| 0 <= k < m < all.len() implies (#[trigger] all[k]).file_index < (
        #[trigger] all[m]).file_index by {
            assert(all[k] == earlier[k]);
            if m < earlier.len() {
                assert(all[m] == earlier[m]);
            }
        }
    }
}

/// The candidates of a path are exactly the entries indexed under it, each
/// once, and in the order in which ingestion met them.
pub proof fn lemma_candidates(listings: Seq<Listing>, path: PathView)
    requires
        countable(listings),
    ensures
        forall|k: int|
            0 <= k < candidates(listings, path).len() ==> {
                let c = #[trigger] candidates(listings, path)[k];
                lists(listings, c.archive_index as int, c.file_index as int, path)
            },
        forall|k: int, m: int|
            0 <= k < m < candidates(listings, path).len() ==> met_before(
                #[trigger] candidates(listings, path)[k],
                #[trigger] candidates(listings, path)[m],
            ),
        forall|a: int, i: int| #[trigger]
            lists(listings, a, i, path) ==> candidates(listings, path).contains(candidate_at(a, i)),
        candidates(listings, path).len() > 0 <==> listed(listings, path),
    decreases listings.len(),
{
    let all = candidates(listings, path);
    if listings.len() > 0 {
        let front = listings.drop_last();
        let last = listings.len() - 1;
        let earlier = candidates(front, path);
        let newer = hits(listings.last(), last, path);
        assert(countable(front));
        lemma_candidates(front, path);
        lemma_hits(listings.last(), last, path);
        assert(all == earlier + newer);
        assert forall|k: int| 0 <= k < all.len() implies {
            let c = #[trigger] all[k];
            lists(listings, c.archive_index as int, c.file_index as int, path)
        } by {
            if k < earlier.len() {
                assert(all[k] == earlier[k]);
                let c = earlier[k];
                assert(lists(front, c.archive_index as int, c.file_index as int, path));
                assert(front[c.archive_index as int] == listings[c.archive_index as int]);
            } else {
                assert(all[k] == newer[k - earlier.len()]);
            }
        }
        assert forall|k: int, m: int| 0 <= k < m < all.len() implies met_before(
            #[trigger] all[k],
            #[trigger] all[m],
        ) by {
            if m < earlier.len() {
                assert(all[k] == earlier[k] && all[m] == earlier[m]);
            } else if k < earlier.len() {
                assert(all[k] == earlier[k]);
                assert(all[m] == newer[m - earlier.len()]);
                let c = earlier[k];
                assert(lists(front, c.archive_index as int, c.file_index as int, path));
            } else {
                assert(all[k] == newer[k - earlier.len()]);
                assert(all[m] == newer[m - earlier.len()]);
            }
        }
        assert forall|a: int, i: int| #[trigger] lists(listings, a, i, path) implies all.contains(
            candidate_at(a, i),
        ) by {
            if a < last {
                assert(front[a] == listings[a]);
                assert(lists(front, a, i, path));
                let k = earlier.index_of(candidate_at(a, i));
                assert(all[k] == candidate_at(a, i));
            } else {
                assert(newer.contains(candidate_at(a, i)));
                let k = newer.index_of(candidate_at(a, i));
                assert(all[earlier.len() + k] == candidate_at(a, i));
            }
        }
    }
    if all.len() > 0 {
        let c = all[0];
        assert(lists(listings, c.archive_index as int, c.file_index as int, path));
    }
    if listed(listings, path) {
        let (a, i) = choose|a: int, i: int| #[trigger] lists(listings, a, i, path);
        assert(all.contains(candidate_at(a, i)));
    }
}

/// Two strictly ascending sequences that hold the same paths are equal.
pub proof fn lemma_ascending_unique(first: Seq<PathView>, second: Seq<PathView>)
    requires
        ascending(first),
        ascending(second),
        forall|p: PathView| first.contains(p) <==> second.contains(p),
    ensures
        first == second,
{
    lemma_ascending_prefix(first, second, first.len() as int);
    lemma_ascending_prefix(second, first, second.len() as int);
    assert(first =~= second);
}

/// Helper of `lemma_ascending_unique`: the first `n` paths of `first` stand
/// at the same positions in `second`.
proof fn lemma_ascending_prefix(first: Seq<PathView>, second: Seq<PathView>, n: int)
    requires
        ascending(first),
        ascending(second),
        forall|p: PathView| first.contains(p) <==> second.contains(p),
        0 <= n <= first.len(),
    ensures
        n <= second.len(),
        forall|i: int| 0 <= i < n ==> first[i] == second[i],
    decreases n,
{
    if n > 0 {
        lemma_ascending_prefix(first, second, n - 1);
        let i = n - 1;
        let p = first[i];
        assert(first.contains(p));
        let m = second.index_of(p);
        assert(0 <= m < second.len() && second[m] == p);
        lemma_path_lt_irreflexive(p);
        if m < i {
            assert(first[m] == second[m]);
            assert(path_lt(first[m], first[i]));
        } else if m > i {
            let q = second[i];
            assert(path_lt(q, p));
            assert(second.contains(q));
            let t = first.index_of(q);
            assert(0 <= t < first.len() && first[t] == q);
            lemma_path_lt_irreflexive(q);
            if t < i {
                assert(first[t] == second[t]);
                assert(path_lt(second[t], second[i]));
            } else if t > i {
                assert(path_lt(first[i], first[t]));
                lemma_path_lt_asymmetric(p, q);
            }
        }
    }
}

/// Whatever strictly ascending sequence holds exactly the paths that have a
/// candidate is the visit order.
pub proof fn lemma_visit_order_unique(
    listings: Seq<Listing>,
    paths: Seq<PathView>,
)
    requires
        is_visit_order(listings, paths),
    ensures
        visit_order(listings) == paths,
{
    let chosen = visit_order(listings);
    assert(is_visit_order(listings, chosen));
    assert forall|p: PathView| chosen.contains(p) <==> paths.contains(p) by {
        assert(chosen.contains(p) <==> candidates(listings, p).len() > 0);
        assert(paths.contains(p) <==> candidates(listings, p).len() > 0);
    }
    lemma_ascending_unique(chosen, paths);
}

} // verus!
