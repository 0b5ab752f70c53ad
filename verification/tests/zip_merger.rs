use std::collections::HashMap;
use std::io::{Cursor, Read, Write};
use std::path::{Path, PathBuf};

use zip::result::ZipResult;
use zip::write::{ExtendedFileOptions, FileOptions};
use zip::ZipArchive;
use zip_merge::ZipMerger;

struct TestFile {
    name: &'static str,
    data: &'static [u8],
}

fn create_zip(files: &[TestFile]) -> ZipResult<Vec<u8>> {
    let mut archive = zip::ZipWriter::new(Cursor::new(Vec::new()));
    for file in files {
        let options: FileOptions<ExtendedFileOptions> = FileOptions::default()
            .compression_method(zip::CompressionMethod::Stored)
            .unix_permissions(0o644);
        archive.start_file_from_path(Path::new(file.name), options)?;
        archive.write_all(file.data)?;
    }
    Ok(archive.finish()?.into_inner())
}

fn extract_zip(zip: Vec<u8>) -> ZipResult<HashMap<PathBuf, Vec<u8>>> {
    let mut archive = ZipArchive::new(Cursor::new(zip))?;

    let mut files = HashMap::new();
    for i in 0..archive.len() {
        let mut file = archive.by_index(i)?;
        let mut data = Vec::new();
        file.read_to_end(&mut data)?;
        files.insert(file.mangled_name(), data);
    }
    Ok(files)
}

fn first_container() -> Vec<u8> {
    create_zip(&[
        TestFile { name: "foo", data: b"foo" },
        TestFile { name: "hello", data: b"hello" },
    ])
    .unwrap()
}

fn second_container() -> Vec<u8> {
    create_zip(&[
        TestFile { name: "hello", data: b"HELLO" },
        TestFile { name: "world", data: b"WORLD" },
    ])
    .unwrap()
}

#[test]
fn test_zip_merger() {
    let zip1 = first_container();
    let zip2 = second_container();

    let mut merger = ZipMerger::new();
    assert!(merger.add(zip1).is_ok());
    assert!(merger.add(zip2).is_ok());

    let output = merger.write();
    assert!(output.is_ok());

    let merged_files = extract_zip(output.unwrap());
    assert!(merged_files.is_ok());
    let merged_files = merged_files.unwrap();

    assert_eq!(merged_files.len(), 3);
    assert_eq!(merged_files[Path::new("foo")], b"foo");
    assert_eq!(merged_files[Path::new("hello")], b"HELLO");
    assert_eq!(merged_files[Path::new("world")], b"WORLD");
}

#[test]
fn test_zip_merger_with_file_selector() {
    let zip1 = first_container();
    let zip2 = second_container();

    let mut merger = ZipMerger::new_with_selector(|files| files[0]);
    assert!(merger.add(zip1).is_ok());
    assert!(merger.add(zip2).is_ok());

    let output = merger.write();
    assert!(output.is_ok());

    let merged_files = extract_zip(output.unwrap());
    assert!(merged_files.is_ok());
    let merged_files = merged_files.unwrap();

    assert_eq!(merged_files.len(), 3);
    assert_eq!(merged_files[Path::new("foo")], b"foo");
    assert_eq!(merged_files[Path::new("hello")], b"hello");
    assert_eq!(merged_files[Path::new("world")], b"WORLD");
}
