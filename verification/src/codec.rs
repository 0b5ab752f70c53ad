//! The container codec. Reading and writing the zip format is the work of the
//! `zip` crate; this module states what the merger relies on. Nothing in this
//! module is proved: every contract in it is taken from the codec's source.
//!
//! The codec works on memory alone here: a container is opened over its
//! bytes, and the output is assembled in a buffer. Every entry is written
//! with one fixed time stamp, so nothing that the codec returns depends on
//! anything but what it is given.

use std::io::Cursor;
use std::path::PathBuf;
use vstd::prelude::*;
use zip::result::ZipError;
use zip::write::{ExtendedFileOptions, FileOptions};
use zip::{CompressionMethod, DateTime, ZipArchive, ZipWriter};

use crate::options::{stored_permissions, Compression, WriteOptions};
use crate::order::PathView;
use crate::path::{joined_len, EntryPath};

verus! {

/// `zip::ZipArchive`, an opened container. Its contents are spoken of through
/// `archive_entries`.
#[verifier::external_type_specification]
#[verifier::external_body]
#[verifier::reject_recursive_types(R)]
pub struct ExZipArchive<R>(ZipArchive<R>);

/// `std::io::Cursor`, the in-memory byte source that an opened container
/// reads from.
#[verifier::external_type_specification]
#[verifier::external_body]
#[verifier::reject_recursive_types(T)]
pub struct ExCursor<T>(Cursor<T>);

/// `zip::result::ZipError`, the codec's error. The merger passes it through
/// and never looks inside.
#[verifier::external_type_specification]
#[verifier::external_body]
pub struct ExZipError(ZipError);

/// A `zip::ZipWriter` over an in-memory sink: the output container while it
/// is assembled. What has been written to it is spoken of through
/// `writer_entries`. The writer's own type bounds its sink by traits of
/// `std::io` of which the proofs know nothing, so it is held in this struct,
/// and nothing of the struct is visible to the proofs.
#[verifier::external_body]
pub struct ContainerWriter {
    inner: ZipWriter<Cursor<Vec<u8>>>,
}

/// The entries of a container. An entry that cannot be opened is `None`; one
/// that opens is its path, where its name gives a safe one, and its
/// uncompressed bytes, where they can be read.
pub type Entries = Seq<Option<(Option<PathView>, Option<Seq<u8>>)>>;

/// The entries written to an output container: for each the name it is stored
/// under, whether it is deflated, its permission bits, and its uncompressed
/// bytes.
pub type Written = Seq<(Seq<char>, bool, u32, Seq<u8>)>;

/// What an opened container holds, entry by entry in directory order. An
/// entry is `None` where `ZipArchive::by_index` fails to open it. For an
/// entry that opens, the first part is what `ZipFile::enclosed_name` makes of
/// its name, split into path components as `std::path::Path::components`
/// splits it on the platform the library is built for, each component as the
/// bytes of its UTF-8 encoding (`None` where the name is unsafe), and the
/// second part is the uncompressed bytes that reading the entry to its end
/// yields (`None` where that read fails).
pub uninterp spec fn archive_entries(archive: ZipArchive<Cursor<Vec<u8>>>) -> Seq<
    Option<(Option<Seq<Seq<u8>>>, Option<Seq<u8>>)>,
>;

/// What `ZipArchive::new` makes of a byte string: `None` where the bytes do
/// not parse as a container, else the entries of the opened container.
pub uninterp spec fn parsed_entries(bytes: Seq<u8>) -> Option<
    Seq<Option<(Option<Seq<Seq<u8>>>, Option<Seq<u8>>)>>,
>;

/// The entries started on a writer so far, in the order in which they were
/// started. Each is the name it is stored under, whether it is deflated, its
/// permission bits, and the uncompressed bytes written to it.
pub uninterp spec fn writer_entries(writer: ContainerWriter) -> Seq<
    (Seq<char>, bool, u32, Seq<u8>),
>;

/// The name under which `ZipWriter::start_file_from_path` stores an entry
/// that is started under the path with the given components.
pub uninterp spec fn stored_name(path: Seq<Seq<u8>>) -> Seq<char>;

/// Whether `ZipWriter::start_file_from_path` accepts a new entry of the
/// given stored name, compression and permission bits on a writer that holds
/// `entries`. It refuses, for one, a name that the writer already holds.
pub uninterp spec fn entry_starts(
    entries: Seq<(Seq<char>, bool, u32, Seq<u8>)>,
    name: Seq<char>,
    deflated: bool,
    permissions: u32,
) -> bool;

/// Whether a writer that holds `entries` accepts `data` as further bytes of
/// its last entry. It refuses, for one, an entry that grows beyond what the
/// plain container format can count.
pub uninterp spec fn data_fits(entries: Seq<(Seq<char>, bool, u32, Seq<u8>)>, data: Seq<u8>) -> bool;

/// What `ZipWriter::finish` makes of a writer that holds `entries`: the bytes
/// of the finished container, each entry under the codec's default
/// compression level and the fixed time stamp, or `None` where finishing
/// fails.
pub uninterp spec fn container_bytes(entries: Seq<(Seq<char>, bool, u32, Seq<u8>)>) -> Option<
    Seq<u8>,
>;

/// The longest name, in bytes, that a container holds: the name's length is
/// kept in sixteen bits.
pub const NAME_LIMIT: usize = 65535;

/// Entry `index` of `entries` exists and can be opened.
pub open spec fn entry_opens(
    entries: Entries,
    index: int,
) -> bool {
    0 <= index < entries.len() && entries[index] is Some
}

/// What the codec makes of the name of entry `index`: its safe relative
/// path, or `None` where the entry has none or does not open.
pub open spec fn entry_name(
    entries: Entries,
    index: int,
) -> Option<PathView> {
    match entries[index] {
        Some((name, _)) => name,
        None => None,
    }
}

/// The uncompressed bytes of entry `index`, or `None` where they cannot be
/// read or the entry does not open.
pub open spec fn entry_data(
    entries: Entries,
    index: int,
) -> Option<Seq<u8>> {
    match entries[index] {
        Some((_, data)) => data,
        None => None,
    }
}

/// The view of a path that may be missing.
pub open spec fn path_view(path: Option<EntryPath>) -> Option<PathView> {
    match path {
        Some(p) => Some(p@),
        None => None,
    }
}

/// `entries` with `data` appended to the bytes of its last entry.
pub open spec fn with_data(
    entries: Written,
    data: Seq<u8>,
) -> Written {
    let (name, deflated, permissions, written) = entries.last();
    entries.drop_last().push((name, deflated, permissions, written + data))
}

/// `ZipArchive::new` over `bytes` held in memory. It succeeds exactly
/// where the bytes parse as a container, and the opened container then holds
/// the entries that the bytes describe.
#[verifier::external_body]
pub(crate) fn open_archive(bytes: Vec<u8>) -> (r: Result<ZipArchive<Cursor<Vec<u8>>>, ZipError>)
    ensures
        match r {
            Ok(archive) => parsed_entries(bytes@) == Some(archive_entries(archive)),
            Err(_) => parsed_entries(bytes@) is None,
        },
{
    ZipArchive::new(Cursor::new(bytes))
}

/// `ZipArchive::len`: the number of entries of the container.
#[verifier::external_body]
pub(crate) fn archive_len(archive: &ZipArchive<Cursor<Vec<u8>>>) -> (n: usize)
    ensures
        n == archive_entries(*archive).len(),
{
    archive.len()
}

/// `ZipArchive::by_index` followed by `ZipFile::enclosed_name`: the safe
/// relative path of entry `index`, split into components, or `None` where
/// the entry's name is absolute or leaves the container's root. It fails
/// exactly where the entry cannot be opened. The container holds afterwards
/// what it held before.
#[verifier::external_body]
pub(crate) fn entry_path(archive: &mut ZipArchive<Cursor<Vec<u8>>>, index: usize) -> (r: Result<
    Option<EntryPath>,
    ZipError,
>)
    ensures
        archive_entries(*final(archive)) == archive_entries(*old(archive)),
        match r {
            Ok(path) => entry_opens(archive_entries(*old(archive)), index as int) && entry_name(
                archive_entries(*old(archive)),
                index as int,
            ) == path_view(path),
            Err(_) => !entry_opens(archive_entries(*old(archive)), index as int),
        },
{
    let file = archive.by_index(index)?;
    Ok(
        file.enclosed_name().map(
            |p|
                EntryPath {
                    components: p.components().map(
                        |c| c.as_os_str().to_string_lossy().into_owned(),
                    ).collect(),
                },
        ),
    )
}

/// `ZipWriter::new` over an empty in-memory sink: a writer on which no entry
/// has been started.
#[verifier::external_body]
pub(crate) fn new_writer() -> (writer: ContainerWriter)
    ensures
        writer_entries(writer) == Written::empty(),
{
    ContainerWriter { inner: ZipWriter::new(Cursor::new(Vec::new())) }
}

/// `ZipWriter::start_file_from_path`: starts a new, empty entry under `path`
/// with the given settings and the fixed time stamp `DateTime::default()`.
/// Where it succeeds the writer comes back with that entry added after the
/// others; where it fails the writer is given up. The codec does not test
/// the length of the name it stores and panics on one over `NAME_LIMIT`
/// bytes; the stored name is never longer than the components of the path
/// joined by separators, so the path is bounded here.
#[verifier::external_body]
pub(crate) fn start_entry(writer: ContainerWriter, path: &EntryPath, options: WriteOptions) -> (r:
    Result<ContainerWriter, ZipError>)
    requires
        joined_len(path@) <= NAME_LIMIT,
    ensures
        match r {
            Ok(next) => {
                &&& entry_starts(
                    writer_entries(writer),
                    stored_name(path@),
                    options.compression == Compression::Deflated,
                    stored_permissions(options),
                )
                &&& writer_entries(next) == writer_entries(writer).push(
                    (
                        stored_name(path@),
                        options.compression == Compression::Deflated,
                        stored_permissions(options),
                        Seq::<u8>::empty(),
                    ),
                )
            },
            Err(_) => !entry_starts(
                writer_entries(writer),
                stored_name(path@),
                options.compression == Compression::Deflated,
                stored_permissions(options),
            ),
        },
{
    let mut writer = writer;
    let target: PathBuf = path.components.iter().collect();
    let method = match options.compression {
        Compression::Stored => CompressionMethod::Stored,
        Compression::Deflated => CompressionMethod::Deflated,
    };
    let settings = FileOptions::<ExtendedFileOptions>::default().compression_method(
        method,
    ).unix_permissions(options.permissions).last_modified_time(DateTime::default());
    writer.inner.start_file_from_path(target, settings)?;
    Ok(writer)
}

/// `ZipArchive::by_index` followed by `std::io::copy` into the writer:
/// streams the uncompressed bytes of entry `index` into the entry that was
/// started last. It succeeds exactly where the entry opens, reads to its
/// end, and the writer accepts the bytes; the writer then comes back with
/// those bytes appended to its last entry. Where it fails the writer is
/// given up. The container holds afterwards what it held before.
#[verifier::external_body]
pub(crate) fn copy_entry(
    archive: &mut ZipArchive<Cursor<Vec<u8>>>,
    index: usize,
    writer: ContainerWriter,
) -> (r: Result<ContainerWriter, ZipError>)
    requires
        writer_entries(writer).len() > 0,
    ensures
        archive_entries(*final(archive)) == archive_entries(*old(archive)),
        r is Ok <==> {
            &&& entry_opens(archive_entries(*old(archive)), index as int)
            &&& entry_data(archive_entries(*old(archive)), index as int) is Some
            &&& data_fits(
                writer_entries(writer),
                entry_data(archive_entries(*old(archive)), index as int).unwrap(),
            )
        },
        r matches Ok(next) ==> writer_entries(next) == with_data(
            writer_entries(writer),
            entry_data(archive_entries(*old(archive)), index as int).unwrap(),
        ),
{
    let mut writer = writer;
    let mut file = archive.by_index(index)?;
    std::io::copy(&mut file, &mut writer.inner)?;
    Ok(writer)
}

/// `ZipArchive::by_index` followed by `std::io::copy` into `std::io::sink`:
/// reads entry `index` to its end and drops the bytes. It succeeds exactly
/// where the entry opens and reads to its end. The container holds
/// afterwards what it held before.
#[verifier::external_body]
pub(crate) fn check_entry(archive: &mut ZipArchive<Cursor<Vec<u8>>>, index: usize) -> (r: Result<
    (),
    ZipError,
>)
    ensures
        archive_entries(*final(archive)) == archive_entries(*old(archive)),
        r is Ok <==> entry_opens(archive_entries(*old(archive)), index as int) && entry_data(
            archive_entries(*old(archive)),
            index as int,
        ) is Some,
{
    let mut file = archive.by_index(index)?;
    std::io::copy(&mut file, &mut std::io::sink())?;
    Ok(())
}

/// `ZipWriter::finish`: closes the last entry, writes the central directory
/// and hands out the bytes of the sink. It succeeds exactly where the codec
/// can finish a container of the entries written.
#[verifier::external_body]
pub(crate) fn finish_writer(writer: ContainerWriter) -> (r: Result<Vec<u8>, ZipError>)
    ensures
        match r {
            Ok(bytes) => container_bytes(writer_entries(writer)) == Some(bytes@),
            Err(_) => container_bytes(writer_entries(writer)) is None,
        },
{
    Ok(writer.inner.finish()?.into_inner())
}

} // verus!
