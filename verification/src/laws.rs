//! What holds of every merge, whatever was ingested and in whatever order.

use vstd::prelude::*;

use crate::candidate::{
    default_file_selector, is_latest, latest_position, lemma_latest_exists, Index,
};
use crate::codec::{container_bytes, entry_data, Entries};
use crate::listing::{
    candidate_at, lemma_ascending_unique, lemma_candidates, listed, lists, met_before,
    visit_order,
};
use crate::merger::{assembly_of, fault_at, halts_at, listings_of, ZipMerger};
use crate::options::WriteOptions;
use crate::order::{path_lt, PathView};
use crate::selector::{DefaultSelector, FileSelector};

verus! {

/// The built-in policy is a function of the list alone: two calls on equal
/// lists return the same candidate.
pub proof fn lemma_default_selector_deterministic(
    first: &[Index],
    second: &[Index],
    once: Index,
    again: Index,
)
    requires
        first@.len() > 0,
        first@ == second@,
        call_ensures(default_file_selector, (first,), once),
        call_ensures(default_file_selector, (second,), again),
    ensures
        once == again,
{
}

/// Every lawful policy is a function of the list alone: two calls on equal
/// lists return the same candidate.
pub proof fn lemma_selector_deterministic<S: FileSelector>(
    selector: &S,
    first: &[Index],
    second: &[Index],
    once: Index,
    again: Index,
)
    requires
        selector.lawful(),
        first@.len() > 0,
        first@ == second@,
        call_ensures(S::select, (selector, first), once),
        call_ensures(S::select, (selector, second), again),
    ensures
        once == again,
{
}

/// Where the assembly gives a container, nothing went wrong at any of the
/// first `k` paths.
proof fn lemma_written_before<S: FileSelector>(
    selector: S,
    contents: Seq<Entries>,
    options: WriteOptions,
    k: int,
)
    requires
        assembly_of(selector, contents, options) is Ok,
        0 <= k <= visit_order(listings_of(contents)).len(),
    ensures
        forall|j: int| 0 <= j < k ==> (#[trigger] fault_at(selector, contents, options, j)) is None,
    decreases k,
{
    if k > 0 {
        lemma_written_before(selector, contents, options, k - 1);
        if fault_at(selector, contents, options, k - 1) is Some {
            assert(halts_at(selector, contents, options, k - 1));
        }
    }
}

impl<S: FileSelector> ZipMerger<S> {
    /// The assembly gives a container exactly where nothing goes wrong at
    /// any path and the codec can finish the container; the container is
    /// then the codec's for exactly the entries of `output`, and the bytes of
    /// every winner were read.
    pub proof fn lemma_assembled(&self, options: WriteOptions)
        ensures
            self.assembly(options) is Ok <==> {
                &&& forall|k: int|
                    0 <= k < self.paths().len() ==> (#[trigger] fault_at(
                        self.selector(),
                        self.contents(),
                        options,
                        k,
                    )) is None
                &&& container_bytes(self.output(options)) is Some
            },
            self.assembly(options) matches Ok(bytes) ==> container_bytes(self.output(options))
                == Some(bytes),
            self.assembly(options) is Ok ==> forall|k: int|
                0 <= k < self.paths().len() ==> self.winner_data(#[trigger] self.paths()[k]) is Some,
    {
        if self.assembly(options) is Ok {
            lemma_written_before(
                self.selector(),
                self.contents(),
                options,
                self.paths().len() as int,
            );
            assert forall|k: int| 0 <= k < self.paths().len() implies self.winner_data(
                #[trigger] self.paths()[k],
            ) is Some by {
                assert(fault_at(self.selector(), self.contents(), options, k) is None);
            }
        }
    }

    /// The output holds a path exactly where some entry of some ingested
    /// container is listed under it: its paths are the union of the paths of
    /// the inputs, without the entries that were skipped.
    pub proof fn lemma_output_paths(&self, path: PathView)
        requires
            self.wf(),
        ensures
            self.paths().contains(path) <==> listed(self.listings(), path),
    {
        self.lemma_consistent();
        lemma_candidates(self.listings(), path);
    }

    /// The entries of the output stand in strictly ascending order of their
    /// paths, so no path is written twice.
    pub proof fn lemma_output_ascending(&self, i: int, j: int)
        requires
            self.wf(),
            0 <= i < j < self.paths().len(),
        ensures
            path_lt(self.paths()[i], self.paths()[j]),
    {
        self.lemma_consistent();
    }

    /// The order of the output does not depend on the order of ingestion:
    /// two mergers whose inputs list the same paths write them in the same
    /// order.
    pub proof fn lemma_output_order_independent<T: FileSelector>(&self, other: &ZipMerger<T>)
        requires
            self.wf(),
            other.wf(),
            forall|p: PathView| listed(self.listings(), p) <==> listed(other.listings(), p),
        ensures
            self.paths() == other.paths(),
    {
        self.lemma_consistent();
        other.lemma_consistent();
        assert forall|p: PathView| self.paths().contains(p) <==> other.paths().contains(p) by {
            self.lemma_output_paths(p);
            other.lemma_output_paths(p);
        }
        lemma_ascending_unique(self.paths(), other.paths());
    }

    /// The winner of a path is an entry that is listed under that path, so
    /// the output's bytes for a path are the bytes of one of its candidates.
    pub proof fn lemma_winner_listed(&self, path: PathView)
        requires
            self.wf(),
            listed(self.listings(), path),
        ensures
            self.candidates_of(path).contains(self.winner(path)),
            lists(
                self.listings(),
                self.winner(path).archive_index as int,
                self.winner(path).file_index as int,
                path,
            ),
    {
        self.lemma_consistent();
        lemma_candidates(self.listings(), path);
        self.selector().lemma_selection_member(self.candidates_of(path));
        let k = self.candidates_of(path).index_of(self.winner(path));
        assert(self.candidates_of(path)[k] == self.winner(path));
    }

    /// A path that occurs in exactly one container takes its bytes from that
    /// container, whatever the policy. Where one entry alone is listed under
    /// the path, the output's bytes for the path are that entry's bytes.
    pub proof fn lemma_single_source(&self, path: PathView, archive: int, file: int)
        requires
            self.wf(),
            lists(self.listings(), archive, file, path),
            forall|a: int, i: int| #[trigger] lists(self.listings(), a, i, path) ==> a == archive,
        ensures
            self.winner(path).archive_index == archive,
            (forall|a: int, i: int| #[trigger] lists(self.listings(), a, i, path) ==> i == file) ==> {
                &&& self.winner(path) == candidate_at(archive, file)
                &&& self.winner_data(path) == entry_data(self.contents()[archive], file)
            },
    {
        self.lemma_consistent();
        self.lemma_winner_listed(path);
    }
}

impl ZipMerger<DefaultSelector> {
    /// Under the built-in policy the most recently ingested container that
    /// holds a path wins it, and where that container lists the path more
    /// than once, its last such entry.
    pub proof fn lemma_latest_wins(&self, path: PathView, archive: int, file: int)
        requires
            self.wf(),
            lists(self.listings(), archive, file, path),
        ensures
            lists(
                self.listings(),
                self.winner(path).archive_index as int,
                self.winner(path).file_index as int,
                path,
            ),
            archive <= self.winner(path).archive_index,
            archive == self.winner(path).archive_index ==> file <= self.winner(path).file_index,
    {
        self.lemma_consistent();
        self.lemma_winner_listed(path);
        let all = self.candidates_of(path);
        lemma_candidates(self.listings(), path);
        lemma_latest_exists(all);
        let won = latest_position(all);
        assert(is_latest(all, won));
        assert(all.contains(candidate_at(archive, file)));
        let k = all.index_of(candidate_at(archive, file));
        assert(all[k] == candidate_at(archive, file));
        if k > won {
            assert(met_before(all[won], all[k]));
        } else if k < won {
            assert(met_before(all[k], all[won]));
        }
    }

    /// Ingesting the same content twice changes nothing but the source of the
    /// bytes: under the built-in policy every path of that content is won by
    /// the later ingestion or by a container ingested after it.
    pub proof fn lemma_reingested(&self, first: int, second: int, path: PathView, file: int)
        requires
            self.wf(),
            0 <= first < second < self.contents().len(),
            self.contents()[first] == self.contents()[second],
            lists(self.listings(), first, file, path),
        ensures
            second <= self.winner(path).archive_index < self.contents().len(),
    {
        assert(self.listings()[first] == self.listings()[second]);
        assert(lists(self.listings(), second, file, path));
        self.lemma_latest_wins(path, second, file);
    }
}

} // verus!
