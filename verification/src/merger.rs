//! The merger: it ingests containers one by one and assembles the output
//! container, in which every path holds the bytes of the candidate that the
//! policy picked.
//!
//! A merger has no phases. Containers may be added at any time, before or
//! after a write, and every write assembles a fresh container from all the
//! containers ingested so far.

use std::io::Cursor;
use vstd::prelude::*;
use zip::result::ZipError;
use zip::ZipArchive;

use crate::candidate::Index;
use crate::catalog::{lemma_ascending_position, Catalog};
use crate::codec::{
    archive_entries, archive_len, check_entry, container_bytes, copy_entry, data_fits,
    entry_data, entry_name, entry_opens, entry_path, entry_starts, finish_writer, new_writer,
    open_archive, parsed_entries, path_view, start_entry, stored_name, with_data,
    writer_entries, Entries, Written, NAME_LIMIT,
};
use crate::error::{fault_of, Fault, MergeError};
use crate::listing::{
    candidates, countable, is_visit_order, lemma_candidates, lemma_candidates_push,
    lemma_visit_order_unique, listing, lists, misses, named_listing, visit_order, Listing,
};
use crate::options::{stored_permissions, usual_options, Compression, WriteOptions};
use crate::order::PathView;
use crate::path::{joined_len, EntryPath};
use crate::selector::{DefaultSelector, FileSelector};

verus! {

/// Merges containers into one. Where several containers hold a path, the
/// policy `S` settles which of them gives the path its bytes.
pub struct ZipMerger<S> {
    archives: Vec<ZipArchive<Cursor<Vec<u8>>>>,
    skipped: Vec<Vec<usize>>,
    files: Catalog,
    file_selector: S,
}

/// The bytes parse as a container and every entry of it can be opened.
pub open spec fn ingestible(bytes: Seq<u8>) -> bool {
    &&& parsed_entries(bytes) is Some
    &&& forall|i: int|
        0 <= i < parsed_entries(bytes).unwrap().len() ==> #[trigger] entry_opens(
            parsed_entries(bytes).unwrap(),
            i,
        )
}

/// The listing of each of the given containers.
pub open spec fn listings_of(
    contents: Seq<Entries>,
) -> Seq<Listing> {
    Seq::new(contents.len(), |a: int| listing(contents[a]))
}

/// The candidate that `selector` picks for `path` among the entries of the
/// given containers.
pub open spec fn winner_of<S: FileSelector>(
    selector: S,
    contents: Seq<Entries>,
    path: PathView,
) -> Index {
    selector.selection(candidates(listings_of(contents), path))
}

/// The bytes of the entry that wins `path`, or `None` where they cannot be
/// read.
pub open spec fn winner_data_of<S: FileSelector>(
    selector: S,
    contents: Seq<Entries>,
    path: PathView,
) -> Option<Seq<u8>> {
    let won = winner_of(selector, contents, path);
    entry_data(contents[won.archive_index as int], won.file_index as int)
}

/// What merging the given containers under `selector` writes: one entry for
/// each path that has a candidate, in ascending order of the paths, each
/// stored under the name that the codec gives its path, with the settings of
/// the write and the bytes of the winner.
pub open spec fn output_of<S: FileSelector>(
    selector: S,
    contents: Seq<Entries>,
    options: WriteOptions,
) -> Written {
    let paths = visit_order(listings_of(contents));
    Seq::new(
        paths.len(),
        |k: int|
            (
                stored_name(paths[k]),
                options.compression == Compression::Deflated,
                stored_permissions(options),
                winner_data_of(selector, contents, paths[k]).unwrap(),
            ),
    )
}

/// What goes wrong at path number `k` of the visit order, once everything
/// before it went well: first the path may be too long for a name, then the
/// output may refuse to start the entry, then the winner's bytes may be
/// unreadable, and last the output may refuse the bytes. `None` where the
/// path is written.
pub open spec fn fault_at<S: FileSelector>(
    selector: S,
    contents: Seq<Entries>,
    options: WriteOptions,
    k: int,
) -> Option<Fault> {
    let path = visit_order(listings_of(contents))[k];
    let before = output_of(selector, contents, options).take(k);
    let deflated = options.compression == Compression::Deflated;
    let permissions = stored_permissions(options);
    let started = before.push((stored_name(path), deflated, permissions, Seq::<u8>::empty()));
    if joined_len(path) > NAME_LIMIT {
        Some(Fault::NameTooLong)
    } else if !entry_starts(before, stored_name(path), deflated, permissions) {
        Some(Fault::Write)
    } else if winner_data_of(selector, contents, path) is None {
        Some(Fault::Read)
    } else if !data_fits(started, winner_data_of(selector, contents, path).unwrap()) {
        Some(Fault::Write)
    } else {
        None
    }
}

/// The assembly stops at path number `k`: every path before it is written,
/// and something goes wrong at this one.
pub open spec fn halts_at<S: FileSelector>(
    selector: S,
    contents: Seq<Entries>,
    options: WriteOptions,
    k: int,
) -> bool {
    &&& 0 <= k < visit_order(listings_of(contents)).len()
    &&& fault_at(selector, contents, options, k) is Some
    &&& forall|j: int| 0 <= j < k ==> (#[trigger] fault_at(selector, contents, options, j)) is None
}

/// What assembling the output comes to. It stops with the fault of the
/// first path at which something goes wrong; where every path is written it
/// gives the bytes of the finished container, or stops with a write fault
/// where the codec cannot finish it.
pub open spec fn assembly_of<S: FileSelector>(
    selector: S,
    contents: Seq<Entries>,
    options: WriteOptions,
) -> Result<Seq<u8>, Fault> {
    if exists|k: int| halts_at(selector, contents, options, k) {
        Err(fault_at(selector, contents, options, choose|k: int| halts_at(selector, contents, options, k)).unwrap())
    } else {
        match container_bytes(output_of(selector, contents, options)) {
            Some(bytes) => Ok(bytes),
            None => Err(Fault::Write),
        }
    }
}

/// The assembly stops with the fault of the path at which it halts.
pub proof fn lemma_halts<S: FileSelector>(
    selector: S,
    contents: Seq<Entries>,
    options: WriteOptions,
    k: int,
)
    requires
        halts_at(selector, contents, options, k),
    ensures
        assembly_of(selector, contents, options) == Err::<Seq<u8>, Fault>(
            fault_at(selector, contents, options, k).unwrap(),
        ),
{
    let chosen = choose|m: int| halts_at(selector, contents, options, m);
    assert(halts_at(selector, contents, options, chosen));
    if chosen < k {
        assert(fault_at(selector, contents, options, chosen) is None);
    } else if k < chosen {
        assert(fault_at(selector, contents, options, k) is None);
    }
}

/// Asks the container for the safe relative path of each of its entries, in
/// directory order. It fails at the first entry that cannot be opened.
fn list_entries(archive: &mut ZipArchive<Cursor<Vec<u8>>>) -> (r: Result<
    Vec<Option<EntryPath>>,
    ZipError,
>)
    ensures
        archive_entries(*final(archive)) == archive_entries(*old(archive)),
        match r {
            Ok(names) => {
                &&& names@.len() == archive_entries(*old(archive)).len()
                &&& forall|i: int|
                    0 <= i < names@.len() ==> #[trigger] entry_opens(archive_entries(*old(archive)), i)
                &&& forall|i: int|
                    0 <= i < names@.len() ==> #[trigger] path_view(names@[i]) == entry_name(
                        archive_entries(*old(archive)),
                        i,
                    )
            },
            Err(_) => exists|i: int|
                0 <= i < archive_entries(*old(archive)).len() && !#[trigger] entry_opens(
                    archive_entries(*old(archive)),
                    i,
                ),
        },
{
    let ghost entries = archive_entries(*archive);
    let count = archive_len(archive);
    let mut names: Vec<Option<EntryPath>> = Vec::new();
    let mut file_idx: usize = 0;
    while file_idx < count
        invariant
            archive_entries(*old(archive)) == entries,
            archive_entries(*archive) == entries,
            count == entries.len(),
            file_idx <= count,
            names@.len() == file_idx,
            forall|i: int| 0 <= i < file_idx ==> #[trigger] entry_opens(entries, i),
            forall|i: int|
                0 <= i < file_idx ==> #[trigger] path_view(names@[i]) == entry_name(entries, i),
        decreases count - file_idx,
    {
        match entry_path(archive, file_idx) {
            Ok(path) => {
                names.push(path);
            },
            Err(e) => {
                assert(!entry_opens(entries, file_idx as int));
                return Err(e);
            },
        }
        file_idx += 1;
    }
    Ok(names)
}

impl ZipMerger<DefaultSelector> {
    /// A merger that holds no container, with the built-in policy: the most
    /// recently ingested container wins.
    pub fn new() -> (r: Self)
        ensures
            r.wf(),
            r.contents().len() == 0,
            r.selector() == DefaultSelector,
    {
        let r = ZipMerger {
            archives: Vec::new(),
            skipped: Vec::new(),
            files: Catalog::new(),
            file_selector: DefaultSelector,
        };
        proof {
            r.lemma_empty();
        }
        r
    }
}

impl<F: Fn(&[Index]) -> Index> ZipMerger<F> {
    /// A merger that holds no container, with the caller's policy. The
    /// policy has to be lawful: callable on every non-empty list, answering
    /// with a candidate of the list, and with the same one for equal lists.
    pub fn new_with_selector(file_selector: F) -> (r: Self)
        requires
            file_selector.lawful(),
        ensures
            r.wf(),
            r.contents().len() == 0,
            r.selector() == file_selector,
    {
        let r = ZipMerger { archives: Vec::new(), skipped: Vec::new(), files: Catalog::new(), file_selector };
        proof {
            r.lemma_empty();
        }
        r
    }
}

impl<S: FileSelector> ZipMerger<S> {
    /// The containers ingested so far, in the order of ingestion, each as
    /// the entries it holds.
    pub closed spec fn contents(&self) -> Seq<Entries> {
        Seq::new(self.archives@.len(), |a: int| archive_entries(self.archives@[a]))
    }

    /// The policy that was installed when the merger was made.
    pub closed spec fn selector(&self) -> S {
        self.file_selector
    }

    /// The listing of each container.
    pub open spec fn listings(&self) -> Seq<Listing> {
        listings_of(self.contents())
    }

    /// The paths of the output, in the order in which they are written.
    pub open spec fn paths(&self) -> Seq<PathView> {
        visit_order(self.listings())
    }

    /// The candidates of `path`, oldest first.
    pub open spec fn candidates_of(&self, path: PathView) -> Seq<Index> {
        candidates(self.listings(), path)
    }

    /// The candidate that the policy picks for `path`.
    pub open spec fn winner(&self, path: PathView) -> Index {
        winner_of(self.selector(), self.contents(), path)
    }

    /// The bytes of the entry that won `path`, or `None` where they cannot
    /// be read.
    pub open spec fn winner_data(&self, path: PathView) -> Option<Seq<u8>> {
        winner_data_of(self.selector(), self.contents(), path)
    }

    /// What assembling the output under the given settings comes to: the
    /// bytes of the container, or the fault at which the assembly stops.
    pub open spec fn assembly(&self, options: WriteOptions) -> Result<Seq<u8>, Fault> {
        assembly_of(self.selector(), self.contents(), options)
    }

    /// The entries of the output under the given settings: one for each
    /// path, in ascending order of the paths, with the bytes of the winner.
    pub open spec fn output(&self, options: WriteOptions) -> Written {
        output_of(self.selector(), self.contents(), options)
    }

    /// The merger is consistent: the policy is lawful, every entry of every
    /// container can be opened, and the catalog holds for each path exactly
    /// the candidates that the containers give it.
    pub closed spec fn wf(&self) -> bool {
        &&& self.files.wf()
        &&& self.file_selector.lawful()
        &&& self.skipped@.len() == self.archives@.len()
        &&& forall|a: int|
            0 <= a < self.skipped@.len() ==> (#[trigger] self.skipped@[a])@ == misses(
                self.listings()[a],
            )
        &&& countable(self.listings())
        &&& forall|a: int, i: int|
            0 <= a < self.contents().len() && 0 <= i < self.contents()[a].len() ==> #[trigger] entry_opens(
                self.contents()[a],
                i,
            )
        &&& forall|p: PathView| #[trigger]
            self.files.candidates_of(p) == candidates(self.listings(), p)
    }

    /// A merger without containers is consistent whenever its policy is
    /// lawful.
    proof fn lemma_empty(&self)
        requires
            self.archives@.len() == 0,
            self.skipped@.len() == 0,
            self.files.wf(),
            self.files.paths().len() == 0,
            self.file_selector.lawful(),
        ensures
            self.wf(),
    {
        assert(self.listings() =~= Seq::empty());
        assert forall|p: PathView| #[trigger]
            self.files.candidates_of(p) == candidates(self.listings(), p) by {
            assert(!self.files.paths().contains(p));
        }
    }

    /// The catalog's paths are the visit order of the listings.
    proof fn lemma_catalog_order(&self)
        requires
            self.wf(),
        ensures
            self.files.paths() == self.paths(),
            is_visit_order(self.listings(), self.paths()),
    {
        let held = self.files.paths();
        assert forall|p: PathView| #[trigger]
            held.contains(p) <==> candidates(self.listings(), p).len() > 0 by {
            assert(self.files.candidates_of(p) == candidates(self.listings(), p));
            if held.contains(p) {
                let k = held.index_of(p);
                assert(self.files.lists()[k].len() > 0);
            }
        }
        lemma_visit_order_unique(self.listings(), held);
    }

    /// What holds of every consistent merger: its policy is lawful, every
    /// entry of every container opens, and the paths of the output are
    /// exactly the paths that have a candidate, in strictly ascending order.
    pub proof fn lemma_consistent(&self)
        requires
            self.wf(),
        ensures
            self.selector().lawful(),
            countable(self.listings()),
            is_visit_order(self.listings(), self.paths()),
            forall|a: int, i: int|
                0 <= a < self.contents().len() && 0 <= i < self.contents()[a].len() ==> #[trigger] entry_opens(
                    self.contents()[a],
                    i,
                ),
    {
        self.lemma_catalog_order();
    }

    /// Ingests one container. The bytes are opened, every entry is listed
    /// under its safe relative path, and an entry whose name gives no such
    /// path is skipped. It fails, and leaves the merger as it was, exactly
    /// where the bytes do not parse as a container or an entry cannot be
    /// opened.
    pub fn add(&mut self, input: Vec<u8>) -> (r: Result<(), MergeError>)
        requires
            old(self).wf(),
        ensures
            final(self).wf(),
            final(self).selector() == old(self).selector(),
            match r {
                Ok(_) => ingestible(input@) && final(self).contents() == old(self).contents().push(
                    parsed_entries(input@).unwrap(),
                ),
                Err(e) => e is Open && !ingestible(input@) && final(self).contents() == old(
                    self,
                ).contents(),
            },
    {
        let ghost before = *self;
        let archive_idx = self.archives.len();
        let mut archive = match open_archive(input) {
            Ok(archive) => archive,
            Err(e) => {
                return Err(MergeError::Open(e));
            },
        };
        let ghost entries = archive_entries(archive);
        let names = match list_entries(&mut archive) {
            Ok(names) => names,
            Err(e) => {
                return Err(MergeError::Open(e));
            },
        };
        let skipped = self.files.record_listing(&names, archive_idx);
        self.skipped.push(skipped);
        self.archives.push(archive);
        proof {
            let fresh = listing(entries);
            assert(named_listing(names@) =~= fresh);
            assert(self.contents() =~= before.contents().push(entries));
            assert(self.listings() =~= before.listings().push(fresh));
            assert forall|a: int, i: int|
                0 <= a < self.contents().len() && 0 <= i < self.contents()[a].len() implies #[trigger] entry_opens(
                self.contents()[a],
                i,
            ) by {
                if a < before.contents().len() {
                    assert(entry_opens(before.contents()[a], i));
                }
            }
            assert forall|a: int| 0 <= a < self.listings().len() implies (#[trigger] self.listings()[a]).len()
                <= usize::MAX by {
                if a < before.listings().len() {
                    assert(self.listings()[a] == before.listings()[a]);
                } else {
                    assert(names.len() == fresh.len());
                }
            }
            assert(self.archives.len() == self.archives@.len());
            assert forall|a: int| 0 <= a < self.skipped@.len() implies (#[trigger] self.skipped@[a])@
                == misses(self.listings()[a]) by {
                if a < before.skipped@.len() {
                    assert(self.skipped@[a] == before.skipped@[a]);
                    assert(self.listings()[a] == before.listings()[a]);
                }
            }
            assert forall|p: PathView| #[trigger]
                self.files.candidates_of(p) == candidates(self.listings(), p) by {
                lemma_candidates_push(before.listings(), fresh, p);
                assert(before.files.candidates_of(p) == candidates(before.listings(), p));
            }
        }
        Ok(())
    }

    /// The positions of the entries of container `archive_index` that were
    /// skipped because their names give no safe relative path, in directory
    /// order; `None` where the merger holds no such container.
    pub fn skipped(&self, archive_index: usize) -> (r: Option<&Vec<usize>>)
        requires
            self.wf(),
        ensures
            match r {
                Some(positions) => archive_index < self.contents().len() && positions@ == misses(
                    self.listings()[archive_index as int],
                ),
                None => archive_index >= self.contents().len(),
            },
    {
        if archive_index < self.skipped.len() {
            Some(&self.skipped[archive_index])
        } else {
            None
        }
    }

    /// The winner of the path at position `k` of the visit order. It refers
    /// to an entry that is listed under that path.
    fn winner_at(&self, k: usize) -> (r: Index)
        requires
            self.wf(),
            k < self.paths().len(),
        ensures
            r == self.winner(self.paths()[k as int]),
            lists(self.listings(), r.archive_index as int, r.file_index as int, self.paths()[k as int]),
    {
        proof {
            self.lemma_catalog_order();
            lemma_ascending_position(self.files.paths(), k as int);
        }
        let index = self.file_selector.select(self.files.candidates(k).as_slice());
        proof {
            let path = self.paths()[k as int];
            assert(self.files.candidates_of(path) == candidates(self.listings(), path));
            lemma_candidates(self.listings(), path);
            let at = self.candidates_of(path).index_of(index);
            assert(self.candidates_of(path)[at] == index);
        }
        index
    }

    /// For each path of the output, in the order in which the paths are
    /// written, the candidate that the policy picks for it.
    pub fn winners(&self) -> (r: Vec<(EntryPath, Index)>)
        requires
            self.wf(),
        ensures
            r@.len() == self.paths().len(),
            forall|k: int|
                0 <= k < r@.len() ==> (#[trigger] r@[k]).0@ == self.paths()[k] && r@[k].1
                    == self.winner(self.paths()[k]),
    {
        proof {
            self.lemma_catalog_order();
        }
        let mut picked: Vec<(EntryPath, Index)> = Vec::new();
        let total = self.files.len();
        let mut k: usize = 0;
        while k < total
            invariant
                self.wf(),
                self.files.paths() == self.paths(),
                total == self.paths().len(),
                k <= total,
                picked@.len() == k,
                forall|m: int|
                    0 <= m < k ==> (#[trigger] picked@[m]).0@ == self.paths()[m] && picked@[m].1
                        == self.winner(self.paths()[m]),
            decreases total - k,
        {
            let index = self.winner_at(k);
            picked.push((self.files.path(k).duplicate(), index));
            k += 1;
        }
        picked
    }

    /// Assembles the output container with the usual settings: deflate, and
    /// read-write for the owner but read-only for all others.
    pub fn write(&mut self) -> (r: Result<Vec<u8>, MergeError>)
        requires
            old(self).wf(),
        ensures
            final(self).wf(),
            final(self).selector() == old(self).selector(),
            final(self).contents() == old(self).contents(),
            match r {
                Ok(bytes) => old(self).assembly(usual_options()) == Ok::<Seq<u8>, Fault>(bytes@),
                Err(e) => fault_of(e) matches Some(fault) && old(self).assembly(usual_options())
                    == Err::<Seq<u8>, Fault>(fault),
            },
    {
        self.write_with_option(WriteOptions::default())
    }

    /// Assembles the output container under the given settings. The paths
    /// are visited in ascending order; for each the policy picks the winner
    /// among its candidates, and the winner's bytes are streamed into a new
    /// entry under that path. The merger holds afterwards what it held
    /// before. The result is `assembly`: the bytes of the finished container
    /// where every step goes well, else the first failure. That is
    /// `NameTooLong` where a path cannot be a name, `Read` where the bytes of
    /// a winner cannot be read, and `Write` where the output refuses an entry
    /// or its bytes or cannot be finished.
    pub fn write_with_option(&mut self, option: WriteOptions) -> (r: Result<Vec<u8>, MergeError>)
        requires
            old(self).wf(),
        ensures
            final(self).wf(),
            final(self).selector() == old(self).selector(),
            final(self).contents() == old(self).contents(),
            match r {
                Ok(bytes) => old(self).assembly(option) == Ok::<Seq<u8>, Fault>(bytes@),
                Err(e) => fault_of(e) matches Some(fault) && old(self).assembly(option) == Err::<
                    Seq<u8>,
                    Fault,
                >(fault),
            },
    {
        let ghost before = *self;
        let ghost plan = before.output(option);
        proof {
            before.lemma_catalog_order();
        }
        let mut writer = new_writer();
        let total = self.files.len();
        let mut k: usize = 0;
        proof {
            assert(plan.take(0) =~= Seq::empty());
        }
        while k < total
            invariant
                before == *old(self),
                before.wf(),
                self.wf(),
                self.files == before.files,
                self.skipped == before.skipped,
                self.file_selector == before.file_selector,
                self.contents() == before.contents(),
                before.files.paths() == before.paths(),
                plan == before.output(option),
                total == before.paths().len(),
                k <= total,
                writer_entries(writer) == plan.take(k as int),
                forall|m: int|
                    0 <= m < k ==> (#[trigger] fault_at(
                        before.selector(),
                        before.contents(),
                        option,
                        m,
                    )) is None,
            decreases total - k,
        {
            let ghost path = before.paths()[k as int];
            let ghost written = writer_entries(writer);
            let ghost started = written.push(
                (
                    stored_name(path),
                    option.compression == Compression::Deflated,
                    stored_permissions(option),
                    Seq::<u8>::empty(),
                ),
            );
            if !self.files.path(k).joined_fits(NAME_LIMIT) {
                proof {
                    lemma_halts(before.selector(), before.contents(), option, k as int);
                }
                return Err(MergeError::NameTooLong);
            }
            writer = match start_entry(writer, self.files.path(k), option) {
                Ok(next) => next,
                Err(e) => {
                    proof {
                        lemma_halts(before.selector(), before.contents(), option, k as int);
                    }
                    return Err(MergeError::Write(e));
                },
            };
            let index = self.winner_at(k);
            proof {
                assert(self.contents().len() == self.archives@.len());
            }
            let ghost source = self.archives@[index.archive_index as int];
            let ghost handles = self.archives@;
            writer = match copy_entry(&mut self.archives[index.archive_index], index.file_index, writer) {
                Ok(next) => next,
                Err(e) => {
                    proof {
                        assert(self.archives@ =~= handles.update(
                            index.archive_index as int,
                            self.archives@[index.archive_index as int],
                        ));
                        assert(self.contents() =~= before.contents());
                    }
                    let ghost mid = self.archives@;
                    let checked = check_entry(&mut self.archives[index.archive_index], index.file_index);
                    proof {
                        assert(self.archives@ =~= mid.update(
                            index.archive_index as int,
                            self.archives@[index.archive_index as int],
                        ));
                        assert(self.contents() =~= before.contents());
                        assert(archive_entries(source) == before.contents()[index.archive_index as int]);
                        lemma_halts(before.selector(), before.contents(), option, k as int);
                    }
                    return match checked {
                        Ok(_) => Err(MergeError::Write(e)),
                        Err(unreadable) => Err(MergeError::Read(unreadable)),
                    };
                },
            };
            proof {
                assert(self.archives@ =~= handles.update(
                    index.archive_index as int,
                    self.archives@[index.archive_index as int],
                ));
                assert(self.contents() =~= before.contents());
                assert(archive_entries(source) == before.contents()[index.archive_index as int]);
                let data = before.winner_data(path).unwrap();
                assert(started.drop_last() =~= written);
                assert(Seq::<u8>::empty() + data =~= data);
                assert(with_data(started, data) =~= plan.take(k + 1));
            }
            k += 1;
        }
        proof {
            assert(plan.take(total as int) =~= plan);
            assert(!exists|m: int| halts_at(before.selector(), before.contents(), option, m));
        }
        match finish_writer(writer) {
            Ok(bytes) => Ok(bytes),
            Err(e) => Err(MergeError::Write(e)),
        }
    }
}

} // verus!
