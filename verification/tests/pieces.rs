use zip_merge::catalog::Catalog;
use zip_merge::order::{compare_bytes, Order};
use zip_merge::path::EntryPath;
use zip_merge::{default_file_selector, DefaultSelector, FileSelector, Index};

fn at(archive_index: usize, file_index: usize) -> Index {
    Index { archive_index, file_index }
}

fn pair(index: Index) -> (usize, usize) {
    (index.archive_index, index.file_index)
}

fn path(components: &[&str]) -> EntryPath {
    EntryPath { components: components.iter().map(|c| c.to_string()).collect() }
}

#[test]
fn default_selector_takes_the_only_candidate() {
    assert_eq!(pair(default_file_selector(&[at(4, 9)])), (4, 9));
}

#[test]
fn default_selector_takes_the_highest_container() {
    let list = [at(0, 5), at(3, 1), at(1, 7)];
    assert_eq!(pair(default_file_selector(&list)), (3, 1));
    let list = [at(2, 0), at(1, 0), at(0, 0)];
    assert_eq!(pair(default_file_selector(&list)), (2, 0));
    let list = [at(0, 0), at(1, 0), at(2, 0)];
    assert_eq!(pair(default_file_selector(&list)), (2, 0));
}

#[test]
fn default_selector_takes_the_last_of_equal_containers() {
    let list = [at(1, 0), at(1, 4), at(0, 9), at(1, 2)];
    assert_eq!(pair(default_file_selector(&list)), (1, 2));
}

#[test]
fn default_selector_gives_the_same_answer_twice() {
    let list = [at(0, 1), at(2, 3), at(2, 1), at(1, 8)];
    let once = default_file_selector(&list);
    let again = default_file_selector(&list);
    assert_eq!(pair(once), pair(again));
    assert_eq!(pair(once), (2, 1));
}

#[test]
fn built_in_policy_is_the_default_selector() {
    let list = [at(0, 1), at(5, 3), at(2, 1)];
    assert_eq!(pair(DefaultSelector.select(&list)), pair(default_file_selector(&list)));
}

#[test]
fn a_function_is_a_policy() {
    let first = |files: &[Index]| files[0];
    let list = [at(0, 1), at(5, 3)];
    assert_eq!(pair(first.select(&list)), (0, 1));
    assert_eq!(pair(first.select(&list)), (0, 1));
}

#[test]
fn bytes_compare_lexicographically() {
    let cmp = |a: &[u8], b: &[u8]| compare_bytes(a, b);
    assert_eq!(cmp(b"", b""), Order::Same);
    assert_eq!(cmp(b"abc", b"abc"), Order::Same);
    assert_eq!(cmp(b"", b"a"), Order::Before);
    assert_eq!(cmp(b"a", b""), Order::After);
    assert_eq!(cmp(b"ab", b"abc"), Order::Before);
    assert_eq!(cmp(b"abc", b"ab"), Order::After);
    assert_eq!(cmp(b"abd", b"abc"), Order::After);
    assert_eq!(cmp(b"abc", b"abd"), Order::Before);
    assert_eq!(cmp(b"b", b"abc"), Order::After);
    assert_eq!(cmp(&[0x7f], &[0x80]), Order::Before);
    assert_eq!(cmp(&[0xff], &[0x00, 0xff]), Order::After);
}

#[test]
fn paths_compare_component_by_component() {
    assert_eq!(path(&[]).compare(&path(&[])), Order::Same);
    assert_eq!(path(&["a", "b"]).compare(&path(&["a", "b"])), Order::Same);
    assert_eq!(path(&["a"]).compare(&path(&["a", "b"])), Order::Before);
    assert_eq!(path(&["a", "b"]).compare(&path(&["a"])), Order::After);
    assert_eq!(path(&["lib", "x"]).compare(&path(&["lib.rs"])), Order::Before);
    assert_eq!(path(&["lib.rs"]).compare(&path(&["lib", "x"])), Order::After);
    assert_eq!(path(&["a", "c"]).compare(&path(&["a", "b", "z"])), Order::After);
    assert_eq!(path(&[]).compare(&path(&[""])), Order::Before);
}

#[test]
fn path_emptiness_and_copy() {
    assert!(path(&[]).is_empty());
    assert!(!path(&["a"]).is_empty());
    let first = path(&["dir", "file.txt"]);
    let copy = first.duplicate();
    assert_eq!(copy.components, first.components);
    assert_eq!(copy.components, vec!["dir".to_string(), "file.txt".to_string()]);
}

#[test]
fn catalog_keeps_paths_ascending_and_candidates_in_order() {
    let mut catalog = Catalog::new();
    assert_eq!(catalog.len(), 0);
    catalog.record(&path(&["m"]), at(0, 0));
    catalog.record(&path(&["z"]), at(0, 1));
    catalog.record(&path(&["a", "b"]), at(0, 2));
    catalog.record(&path(&["m"]), at(1, 0));
    catalog.record(&path(&["a"]), at(1, 1));
    catalog.record(&path(&["m"]), at(2, 5));

    assert_eq!(catalog.len(), 4);
    let paths: Vec<String> = (0..4).map(|k| catalog.path(k).components.join("/")).collect();
    assert_eq!(paths, vec!["a", "a/b", "m", "z"]);
    let lists: Vec<Vec<(usize, usize)>> =
        (0..4).map(|k| catalog.candidates(k).iter().map(|c| pair(*c)).collect()).collect();
    assert_eq!(
        lists,
        vec![vec![(1, 1)], vec![(0, 2)], vec![(0, 0), (1, 0), (2, 5)], vec![(0, 1)]]
    );
}

#[test]
fn catalog_locates_paths_and_gaps() {
    let mut catalog = Catalog::new();
    assert_eq!(catalog.locate(&path(&["anything"])), Err(0));
    for (k, name) in ["b", "d", "f", "h"].iter().enumerate() {
        catalog.record(&path(&[name]), at(0, k));
    }
    assert_eq!(catalog.locate(&path(&["b"])), Ok(0));
    assert_eq!(catalog.locate(&path(&["d"])), Ok(1));
    assert_eq!(catalog.locate(&path(&["f"])), Ok(2));
    assert_eq!(catalog.locate(&path(&["h"])), Ok(3));
    assert_eq!(catalog.locate(&path(&["a"])), Err(0));
    assert_eq!(catalog.locate(&path(&["c"])), Err(1));
    assert_eq!(catalog.locate(&path(&["e"])), Err(2));
    assert_eq!(catalog.locate(&path(&["g"])), Err(3));
    assert_eq!(catalog.locate(&path(&["i"])), Err(4));
    assert_eq!(catalog.locate(&path(&["b", "x"])), Err(1));
}

#[test]
fn catalog_takes_paths_in_any_order() {
    let names = ["q", "c", "x", "a", "m", "b", "z", "k", "c", "a"];
    let mut catalog = Catalog::new();
    for (k, name) in names.iter().enumerate() {
        catalog.record(&path(&[name]), at(k, 0));
    }
    let held: Vec<String> = (0..catalog.len()).map(|k| catalog.path(k).components[0].clone()).collect();
    assert_eq!(held, vec!["a", "b", "c", "k", "m", "q", "x", "z"]);
    let a: Vec<(usize, usize)> = catalog.candidates(0).iter().map(|c| pair(*c)).collect();
    let c: Vec<(usize, usize)> = catalog.candidates(2).iter().map(|c| pair(*c)).collect();
    assert_eq!(a, vec![(3, 0), (9, 0)]);
    assert_eq!(c, vec![(1, 0), (8, 0)]);
}

#[test]
fn catalog_records_a_listing_in_directory_order() {
    let mut catalog = Catalog::new();
    let names = vec![
        Some(path(&["a"])),
        None,
        Some(path(&[])),
        Some(path(&["a"])),
        Some(path(&["b", "c"])),
    ];
    let skipped = catalog.record_listing(&names, 3);
    assert_eq!(skipped, vec![1, 2]);
    assert_eq!(catalog.len(), 2);
    assert_eq!(catalog.path(0).components, vec!["a"]);
    assert_eq!(catalog.path(1).components, vec!["b", "c"]);
    let a: Vec<(usize, usize)> = catalog.candidates(0).iter().map(|c| pair(*c)).collect();
    let bc: Vec<(usize, usize)> = catalog.candidates(1).iter().map(|c| pair(*c)).collect();
    assert_eq!(a, vec![(3, 0), (3, 3)]);
    assert_eq!(bc, vec![(3, 4)]);

    let skipped = catalog.record_listing(&vec![Some(path(&["b", "c"])), Some(path(&["0"]))], 4);
    assert_eq!(skipped, Vec::<usize>::new());
    assert_eq!(catalog.len(), 3);
    assert_eq!(catalog.path(0).components, vec!["0"]);
    let bc: Vec<(usize, usize)> = catalog.candidates(2).iter().map(|c| pair(*c)).collect();
    assert_eq!(bc, vec![(3, 4), (4, 0)]);
}

#[test]
fn catalog_ignores_an_empty_listing() {
    let mut catalog = Catalog::new();
    assert_eq!(catalog.record_listing(&vec![], 0), Vec::<usize>::new());
    assert_eq!(catalog.record_listing(&vec![None, Some(path(&[]))], 1), vec![0, 1]);
    assert_eq!(catalog.len(), 0);
}

#[test]
fn plain_paths_are_ordered_as_std_orders_them() {
    let samples = [
        "a", "a/b", "a.txt", "a-b", "a/b/c", "a/b.c", "a b", "b", "A", "a/B", "ab", "a/a/a",
        "lib", "lib/x", "lib.rs", "lib-x/y", "z/0", "z0", "0", "~", "a/~", "\u{e9}", "a/\u{e9}/b",
    ];
    for left in samples {
        for right in samples {
            let ours = path(&left.split('/').collect::<Vec<&str>>())
                .compare(&path(&right.split('/').collect::<Vec<&str>>()));
            let l = std::path::PathBuf::from(left);
            let r = std::path::PathBuf::from(right);
            let theirs = if l < r {
                Order::Before
            } else if l == r {
                Order::Same
            } else {
                Order::After
            };
            assert_eq!(ours, theirs, "{:?} against {:?}", left, right);
        }
    }
}

#[test]
fn joined_length_counts_components_and_separators() {
    assert!(path(&[]).joined_fits(0));
    assert!(path(&["abc"]).joined_fits(3));
    assert!(!path(&["abc"]).joined_fits(2));
    assert!(path(&["ab", "cd"]).joined_fits(5));
    assert!(!path(&["ab", "cd"]).joined_fits(4));
    assert!(path(&["", "", ""]).joined_fits(2));
    assert!(!path(&["", "", ""]).joined_fits(1));
    assert!(path(&["\u{e9}"]).joined_fits(2));
    assert!(!path(&["\u{e9}"]).joined_fits(1));
    assert!(!path(&["a", "b"]).joined_fits(0));
}

#[test]
fn joined_length_at_the_name_limit() {
    let exact = "x".repeat(65535);
    let over = "x".repeat(65536);
    let half = "y".repeat(32767);
    assert!(path(&[&exact]).joined_fits(65535));
    assert!(!path(&[&over]).joined_fits(65535));
    assert!(path(&[&half, &half]).joined_fits(65535));
    assert!(!path(&[&half, &half, ""]).joined_fits(65535));
    assert!(path(&[&over]).joined_fits(usize::MAX));
}
