use std::io::{Cursor, Read, Write};

use zip::write::SimpleFileOptions;
use zip::{CompressionMethod, ZipArchive, ZipWriter};
use zip_merge::{Compression, MergeError, WriteOptions, ZipMerger};

/// Builds a container whose entries carry exactly the given names, unchanged.
fn container(files: &[(&str, &[u8])]) -> Vec<u8> {
    let mut writer = ZipWriter::new(Cursor::new(Vec::new()));
    for (name, data) in files {
        let options = SimpleFileOptions::default().compression_method(CompressionMethod::Stored);
        writer.start_file(*name, options).unwrap();
        writer.write_all(data).unwrap();
    }
    writer.finish().unwrap().into_inner()
}

/// Reads a container back: names and contents in directory order.
fn entries(bytes: Vec<u8>) -> Vec<(String, Vec<u8>)> {
    let mut archive = ZipArchive::new(Cursor::new(bytes)).unwrap();
    let mut out = Vec::new();
    for i in 0..archive.len() {
        let mut file = archive.by_index(i).unwrap();
        let mut data = Vec::new();
        file.read_to_end(&mut data).unwrap();
        out.push((file.name().to_string(), data));
    }
    out
}

fn named(name: &str, data: &[u8]) -> (String, Vec<u8>) {
    (name.to_string(), data.to_vec())
}

#[test]
fn empty_merger_writes_an_empty_container() {
    let mut merger = ZipMerger::new();
    let out = merger.write().unwrap();
    assert_eq!(entries(out), vec![]);
}

#[test]
fn single_container_is_copied_byte_for_byte() {
    let mut merger = ZipMerger::new();
    merger.add(container(&[("one.txt", b"first"), ("two.bin", &[0, 1, 2, 255])])).unwrap();
    let out = merger.write().unwrap();
    assert_eq!(entries(out), vec![named("one.txt", b"first"), named("two.bin", &[0, 1, 2, 255])]);
}

#[test]
fn output_paths_are_the_union_of_the_inputs() {
    let mut merger = ZipMerger::new();
    merger.add(container(&[("a", b"1"), ("b", b"2")])).unwrap();
    merger.add(container(&[("c", b"3")])).unwrap();
    merger.add(container(&[("b", b"4"), ("d", b"5")])).unwrap();
    let out = entries(merger.write().unwrap());
    let names: Vec<String> = out.iter().map(|(n, _)| n.clone()).collect();
    assert_eq!(names, vec!["a", "b", "c", "d"]);
}

#[test]
fn latest_of_three_containers_wins() {
    let mut merger = ZipMerger::new();
    merger.add(container(&[("shared", b"from 0"), ("only0", b"zero")])).unwrap();
    merger.add(container(&[("shared", b"from 1")])).unwrap();
    merger.add(container(&[("shared", b"from 2"), ("only2", b"two")])).unwrap();
    let out = entries(merger.write().unwrap());
    assert_eq!(
        out,
        vec![named("only0", b"zero"), named("only2", b"two"), named("shared", b"from 2")]
    );
}

#[test]
fn latest_holder_wins_even_if_not_last_ingested() {
    let mut merger = ZipMerger::new();
    merger.add(container(&[("shared", b"from 0")])).unwrap();
    merger.add(container(&[("shared", b"from 1")])).unwrap();
    merger.add(container(&[("other", b"from 2")])).unwrap();
    let out = entries(merger.write().unwrap());
    assert_eq!(out, vec![named("other", b"from 2"), named("shared", b"from 1")]);
}

#[test]
fn first_wins_policy_keeps_the_oldest() {
    let mut merger = ZipMerger::new_with_selector(|files| files[0]);
    merger.add(container(&[("shared", b"from 0")])).unwrap();
    merger.add(container(&[("shared", b"from 1")])).unwrap();
    merger.add(container(&[("shared", b"from 2")])).unwrap();
    let out = entries(merger.write().unwrap());
    assert_eq!(out, vec![named("shared", b"from 0")]);
}

#[test]
fn policy_sees_candidates_in_ingestion_order() {
    let mut merger = ZipMerger::new_with_selector(|files| {
        if files.len() == 3 {
            assert_eq!((files[0].archive_index, files[0].file_index), (0, 1));
            assert_eq!((files[1].archive_index, files[1].file_index), (1, 0));
            assert_eq!((files[2].archive_index, files[2].file_index), (2, 2));
            files[1]
        } else {
            assert_eq!(files.len(), 1);
            files[0]
        }
    });
    merger.add(container(&[("x", b"x in 0"), ("shared", b"shared in 0")])).unwrap();
    merger.add(container(&[("shared", b"shared in 1")])).unwrap();
    merger.add(container(&[("y", b"y in 2"), ("z", b"z in 2"), ("shared", b"shared in 2")])).unwrap();
    assert_eq!(
        entries(merger.write().unwrap()),
        vec![
            named("shared", b"shared in 1"),
            named("x", b"x in 0"),
            named("y", b"y in 2"),
            named("z", b"z in 2"),
        ]
    );
}

#[test]
fn output_order_is_ascending_whatever_the_ingestion_order() {
    let a = container(&[("zeta", b"z"), ("alpha", b"a")]);
    let b = container(&[("mid", b"m"), ("beta", b"b")]);

    let mut forward = ZipMerger::new();
    forward.add(a.clone()).unwrap();
    forward.add(b.clone()).unwrap();
    let mut backward = ZipMerger::new();
    backward.add(b).unwrap();
    backward.add(a).unwrap();

    let expected =
        vec![named("alpha", b"a"), named("beta", b"b"), named("mid", b"m"), named("zeta", b"z")];
    assert_eq!(entries(forward.write().unwrap()), expected);
    assert_eq!(entries(backward.write().unwrap()), expected);
}

#[test]
fn paths_are_ordered_component_by_component() {
    let mut merger = ZipMerger::new();
    merger
        .add(container(&[("lib.rs", b"1"), ("lib/x", b"2"), ("lib", b"3"), ("a/b/c", b"4"), ("a/b", b"5")]))
        .unwrap();
    let out = entries(merger.write().unwrap());
    let names: Vec<String> = out.iter().map(|(n, _)| n.clone()).collect();
    assert_eq!(names, vec!["a/b", "a/b/c", "lib", "lib/x", "lib.rs"]);
}

#[test]
fn same_content_twice_gives_the_same_output() {
    let content = container(&[("foo", b"foo"), ("hello", b"hello")]);
    let mut once = ZipMerger::new();
    once.add(content.clone()).unwrap();
    let mut twice = ZipMerger::new();
    twice.add(content.clone()).unwrap();
    twice.add(content).unwrap();
    let expected = vec![named("foo", b"foo"), named("hello", b"hello")];
    assert_eq!(entries(once.write().unwrap()), expected);
    assert_eq!(entries(twice.write().unwrap()), expected);
}

#[test]
fn second_ingestion_of_a_path_set_wins_every_overlap() {
    let mut merger = ZipMerger::new();
    merger.add(container(&[("foo", b"old foo"), ("bar", b"old bar")])).unwrap();
    merger.add(container(&[("foo", b"new foo"), ("bar", b"new bar")])).unwrap();
    assert_eq!(
        entries(merger.write().unwrap()),
        vec![named("bar", b"new bar"), named("foo", b"new foo")]
    );
}

#[test]
fn absolute_name_is_skipped_without_failure() {
    let mut merger = ZipMerger::new();
    assert!(merger.add(container(&[("/etc/passwd", b"root")])).is_ok());
    assert_eq!(entries(merger.write().unwrap()), vec![]);
}

#[test]
fn parent_traversal_name_is_skipped_without_failure() {
    let mut merger = ZipMerger::new();
    assert!(merger.add(container(&[("../escape", b"out")])).is_ok());
    assert!(merger.add(container(&[("a/../../escape", b"out")])).is_ok());
    assert_eq!(entries(merger.write().unwrap()), vec![]);
}

#[test]
fn empty_name_is_skipped_without_failure() {
    let mut merger = ZipMerger::new();
    assert!(merger.add(container(&[("", b"nameless")])).is_ok());
    assert_eq!(entries(merger.write().unwrap()), vec![]);
}

#[test]
fn skipped_entry_keeps_its_ordinal() {
    let mut merger = ZipMerger::new_with_selector(|files| {
        assert_eq!(files.len(), 1);
        assert_eq!(files[0].archive_index, 0);
        assert_eq!(files[0].file_index, 1);
        files[0]
    });
    merger.add(container(&[("/skipped", b"no"), ("kept", b"yes")])).unwrap();
    assert_eq!(entries(merger.write().unwrap()), vec![named("kept", b"yes")]);
}

#[test]
fn unsafe_entries_do_not_hide_the_safe_ones() {
    let mut merger = ZipMerger::new();
    merger.add(container(&[("../up", b"no"), ("ok", b"yes"), ("/abs", b"no")])).unwrap();
    assert_eq!(entries(merger.write().unwrap()), vec![named("ok", b"yes")]);
}

#[test]
fn bytes_that_are_no_container_are_refused() {
    let mut merger = ZipMerger::new();
    let r = merger.add(b"this is not a zip file".to_vec());
    assert!(matches!(r, Err(MergeError::Open(_))));
    let r = merger.add(Vec::new());
    assert!(matches!(r, Err(MergeError::Open(_))));
}

#[test]
fn refused_input_leaves_the_merger_as_it_was() {
    let mut merger = ZipMerger::new();
    merger.add(container(&[("kept", b"before")])).unwrap();
    assert!(merger.add(vec![1, 2, 3, 4]).is_err());
    merger.add(container(&[("later", b"after")])).unwrap();

    assert_eq!(
        entries(merger.write().unwrap()),
        vec![named("kept", b"before"), named("later", b"after")]
    );
    // The refused input took no ordinal: the second good container is number 1.
    let mut ordinals = ZipMerger::new_with_selector(|files| {
        assert_eq!(files[files.len() - 1].archive_index, 1);
        files[0]
    });
    ordinals.add(container(&[("same", b"zero")])).unwrap();
    assert!(ordinals.add(vec![0; 8]).is_err());
    ordinals.add(container(&[("same", b"one")])).unwrap();
    assert_eq!(entries(ordinals.write().unwrap()), vec![named("same", b"zero")]);
}

#[test]
fn damaged_entry_fails_the_write_as_a_read_error() {
    let mut bytes = container(&[("data", b"payload-payload")]);
    let at = bytes.windows(7).position(|w| w == b"payload").unwrap();
    bytes[at] ^= 0xff;
    let mut merger = ZipMerger::new();
    assert!(merger.add(bytes).is_ok());
    assert!(matches!(merger.write(), Err(MergeError::Read(_))));
}

#[test]
fn names_that_collide_in_the_output_fail_the_write() {
    // Both names are safe and differ as paths, but the output stores them
    // under one name.
    let mut merger = ZipMerger::new();
    merger.add(container(&[("b", b"plain"), ("a/../b", b"detour")])).unwrap();
    assert!(matches!(merger.write(), Err(MergeError::Write(_))));
}

#[test]
fn write_can_be_repeated_and_follows_later_additions() {
    let mut merger = ZipMerger::new();
    merger.add(container(&[("a", b"1")])).unwrap();
    let first = merger.write().unwrap();
    let again = merger.write().unwrap();
    assert_eq!(first, again);
    merger.add(container(&[("a", b"2"), ("b", b"3")])).unwrap();
    let later = merger.write().unwrap();
    assert_eq!(entries(first), vec![named("a", b"1")]);
    assert_eq!(entries(later), vec![named("a", b"2"), named("b", b"3")]);
}

#[test]
fn equal_names_up_to_separators_are_one_path() {
    let mut merger = ZipMerger::new();
    merger.add(container(&[("dir//file", b"one"), ("dir/file", b"two"), ("dir/./file", b"three")])).unwrap();
    assert_eq!(entries(merger.write().unwrap()), vec![named("dir/file", b"three")]);

    let mut first = ZipMerger::new_with_selector(|files| files[0]);
    first.add(container(&[("dir//file", b"one"), ("dir/file", b"two")])).unwrap();
    assert_eq!(entries(first.write().unwrap()), vec![named("dir/file", b"one")]);
}

#[test]
fn default_settings_are_deflate_and_rw_r_r() {
    let mut merger = ZipMerger::new();
    merger.add(container(&[("f", b"some bytes some bytes some bytes")])).unwrap();
    let out = merger.write().unwrap();
    let mut archive = ZipArchive::new(Cursor::new(out)).unwrap();
    let file = archive.by_index(0).unwrap();
    assert_eq!(file.compression(), CompressionMethod::Deflated);
    assert_eq!(file.unix_mode().map(|m| m & 0o777), Some(0o644));
}

#[test]
fn settings_of_the_caller_reach_every_entry() {
    let mut merger = ZipMerger::new();
    merger.add(container(&[("f", b"ffff"), ("g", b"gggg")])).unwrap();
    let options = WriteOptions { compression: Compression::Stored, permissions: 0o600 };
    let out = merger.write_with_option(options).unwrap();
    let mut archive = ZipArchive::new(Cursor::new(out.clone())).unwrap();
    for i in 0..2 {
        let file = archive.by_index(i).unwrap();
        assert_eq!(file.compression(), CompressionMethod::Stored);
        assert_eq!(file.unix_mode().map(|m| m & 0o777), Some(0o600));
    }
    assert_eq!(entries(out), vec![named("f", b"ffff"), named("g", b"gggg")]);
}

#[test]
fn only_the_permission_bits_reach_the_output() {
    let mut merger = ZipMerger::new();
    merger.add(container(&[("f", b"x")])).unwrap();
    let low = WriteOptions { compression: Compression::Stored, permissions: 0o755 };
    let high = WriteOptions { compression: Compression::Stored, permissions: 0o7755 };
    assert_eq!(merger.write_with_option(low).unwrap(), merger.write_with_option(high).unwrap());
}

#[test]
fn default_write_equals_write_with_default_options() {
    let mut merger = ZipMerger::new();
    merger.add(container(&[("f", b"payload"), ("dir/g", b"more payload")])).unwrap();
    let plain = merger.write().unwrap();
    let explicit = merger.write_with_option(WriteOptions::default()).unwrap();
    assert_eq!(plain, explicit);
    assert_eq!(WriteOptions::default().permissions, 0o644);
    assert_eq!(WriteOptions::default().compression, Compression::Deflated);
}

#[test]
fn large_entry_survives_the_copy() {
    let data: Vec<u8> = (0..200_000u32).map(|i| (i % 251) as u8).collect();
    let mut merger = ZipMerger::new();
    merger.add(container(&[("big", &data)])).unwrap();
    let out = entries(merger.write().unwrap());
    assert_eq!(out.len(), 1);
    assert_eq!(out[0].0, "big");
    assert_eq!(out[0].1, data);
}

#[test]
fn deflated_input_is_read_uncompressed() {
    let mut writer = ZipWriter::new(Cursor::new(Vec::new()));
    let options = SimpleFileOptions::default().compression_method(CompressionMethod::Deflated);
    writer.start_file("text", options).unwrap();
    writer.write_all(&[b'a'; 5000]).unwrap();
    let input = writer.finish().unwrap().into_inner();

    let mut merger = ZipMerger::new();
    merger.add(input).unwrap();
    let stored = WriteOptions { compression: Compression::Stored, permissions: 0o644 };
    let out = entries(merger.write_with_option(stored).unwrap());
    assert_eq!(out, vec![named("text", &[b'a'; 5000])]);
}

#[test]
fn directory_entry_is_carried_as_an_empty_entry() {
    let mut writer = ZipWriter::new(Cursor::new(Vec::new()));
    let options = SimpleFileOptions::default().compression_method(CompressionMethod::Stored);
    writer.add_directory("dir", options).unwrap();
    writer.start_file("dir/file", options).unwrap();
    writer.write_all(b"inside").unwrap();
    let input = writer.finish().unwrap().into_inner();

    let mut merger = ZipMerger::new();
    merger.add(input).unwrap();
    assert_eq!(
        entries(merger.write().unwrap()),
        vec![named("dir", b""), named("dir/file", b"inside")]
    );
}

#[test]
fn nested_paths_keep_their_separators() {
    let mut merger = ZipMerger::new();
    merger.add(container(&[("a/b/c/d.txt", b"deep"), ("a/b.txt", b"shallow")])).unwrap();
    assert_eq!(
        entries(merger.write().unwrap()),
        vec![named("a/b/c/d.txt", b"deep"), named("a/b.txt", b"shallow")]
    );
}

#[test]
fn name_too_long_for_a_container_fails_the_write() {
    // The directory holds a name of 40000 bytes that each decode to a
    // character of two bytes, so the path is longer than a name can be.
    let long = "a".repeat(40000);
    let mut bytes = container(&[(&long, b"0123456789")]);
    for byte in bytes.iter_mut() {
        if *byte == b'a' {
            *byte = 0x80;
        }
    }
    let mut merger = ZipMerger::new();
    assert!(merger.add(bytes).is_ok());
    assert!(matches!(merger.write(), Err(MergeError::NameTooLong)));
    // The merger is as it was: a further container can still be added.
    assert!(merger.add(container(&[("short", b"ok")])).is_ok());
    assert!(matches!(merger.write(), Err(MergeError::NameTooLong)));
}

#[test]
fn longest_name_is_still_written() {
    let name = "n".repeat(65535);
    let mut merger = ZipMerger::new();
    merger.add(container(&[(&name, b"edge")])).unwrap();
    let out = entries(merger.write().unwrap());
    assert_eq!(out.len(), 1);
    assert_eq!(out[0].0.len(), 65535);
    assert_eq!(out[0].1, b"edge");
}

#[test]
fn skipped_positions_are_reported_per_container() {
    let mut merger = ZipMerger::new();
    merger.add(container(&[("/abs", b"no"), ("ok", b"yes"), ("../up", b"no"), ("", b"no")])).unwrap();
    merger.add(container(&[("fine", b"yes")])).unwrap();
    assert_eq!(merger.skipped(0), Some(&vec![0, 2, 3]));
    assert_eq!(merger.skipped(1), Some(&vec![]));
    assert_eq!(merger.skipped(2), None);
    assert!(merger.add(vec![9, 9, 9]).is_err());
    assert_eq!(merger.skipped(2), None);
}

#[test]
fn winners_are_listed_in_the_order_of_the_output() {
    let mut merger = ZipMerger::new();
    merger.add(container(&[("z", b"0"), ("shared", b"0"), ("/skip", b"0")])).unwrap();
    merger.add(container(&[("shared", b"1"), ("a/b", b"1")])).unwrap();
    let listed: Vec<(String, usize, usize)> = merger
        .winners()
        .iter()
        .map(|(path, index)| (path.components.join("/"), index.archive_index, index.file_index))
        .collect();
    assert_eq!(
        listed,
        vec![("a/b".to_string(), 1, 1), ("shared".to_string(), 1, 0), ("z".to_string(), 0, 0)]
    );

    let mut first = ZipMerger::new_with_selector(|files| files[0]);
    first.add(container(&[("shared", b"0")])).unwrap();
    first.add(container(&[("shared", b"1")])).unwrap();
    let listed: Vec<(usize, usize)> =
        first.winners().iter().map(|(_, index)| (index.archive_index, index.file_index)).collect();
    assert_eq!(listed, vec![(0, 0)]);
    assert!(ZipMerger::new().winners().is_empty());
}

#[test]
fn entries_carry_one_fixed_time_stamp() {
    let mut merger = ZipMerger::new();
    merger.add(container(&[("f", b"x")])).unwrap();
    let out = merger.write().unwrap();
    let mut archive = ZipArchive::new(Cursor::new(out)).unwrap();
    let file = archive.by_index(0).unwrap();
    let stamp = file.last_modified().unwrap();
    assert_eq!((stamp.year(), stamp.month(), stamp.day()), (1980, 1, 1));
    assert_eq!((stamp.hour(), stamp.minute(), stamp.second()), (0, 0, 0));
}
