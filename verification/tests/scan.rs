use dupfinder::hasher::hash_bytes;
use dupfinder::scan::{
    find_duplicates, hash_candidates, scan_for_duplicates, strict_mode, DirectoryListing,
    DuplicateGroup, ListedEntry, ScanError,
};

fn file(dir: &str, name: &str, content: &[u8]) -> ListedEntry {
    let extension = match name.rfind('.') {
        Some(dot) => name[dot + 1..].to_string(),
        None => String::new(),
    };
    ListedEntry {
        path: format!("{}/{}", dir, name),
        name: name.to_string(),
        extension,
        is_file: true,
        size: Some(content.len() as u64),
        digest: None,
    }
}

fn listing(dir: &str, files: &[(&str, &[u8])], mode: &str) -> Vec<ListedEntry> {
    let mut entries: Vec<ListedEntry> = Vec::new();
    for (name, content) in files {
        entries.push(file(dir, name, content));
    }
    for index in hash_candidates(&entries, mode) {
        let content = files[index].1;
        entries[index].digest = Some(hash_bytes(content));
    }
    entries
}

fn paths(group: &DuplicateGroup) -> Vec<String> {
    group.files.iter().map(|f| f.path.clone()).collect()
}

fn sized(path: &str, size: u64, digest: Option<&str>) -> ListedEntry {
    ListedEntry {
        path: path.to_string(),
        name: path.to_string(),
        extension: String::new(),
        is_file: true,
        size: Some(size),
        digest: digest.map(|d| d.to_string()),
    }
}

#[test]
fn test_duplicate_detection() {
    let test_dir = "test_duplicates_dir";
    let files: [(&str, &[u8]); 5] = [
        ("file1.txt", b"Hello World identical"),
        ("file1_copy.txt", b"Hello World identical"),
        ("file3.txt", b"Hello World unique here"),
        ("file4.txt", b"Size identical, but...A"),
        ("file5.txt", b"Size identical, but...B"),
    ];
    let entries = listing(test_dir, &files, "strict");
    let groups =
        scan_for_duplicates(test_dir, &DirectoryListing::Entries(entries), "strict").unwrap();

    assert_eq!(groups.len(), 1, "Duplicate groups count should be 1");

    let dup_group = &groups[0];
    assert_eq!(dup_group.files.len(), 2, "There should be 2 files in the group");

    let paths: Vec<String> = dup_group.files.iter().map(|f| f.path.clone()).collect();
    assert!(paths.contains(&"test_duplicates_dir/file1.txt".to_string()));
    assert!(paths.contains(&"test_duplicates_dir/file1_copy.txt".to_string()));
    assert!(!paths.contains(&"test_duplicates_dir/file4.txt".to_string()));
}

#[test]
fn strict_scan_groups_identical_content_only() {
    let files: [(&str, &[u8]); 5] = [
        ("a.txt", b"Hello World identical"),
        ("b.txt", b"Hello World identical"),
        ("c.txt", b"Hello World unique here"),
        ("d.txt", b"Size identical, but...A"),
        ("e.txt", b"Size identical, but...B"),
    ];
    let entries = listing("dir", &files, "strict");
    let groups = find_duplicates(&entries, true);
    assert_eq!(groups.len(), 1);
    assert_eq!(groups[0].size, "Hello World identical".len() as u64);
    assert_eq!(groups[0].size, 21);
    assert_eq!(paths(&groups[0]), vec!["dir/a.txt".to_string(), "dir/b.txt".to_string()]);
    assert_eq!(groups[0].hash, hash_bytes(b"Hello World identical"));
    for f in &groups[0].files {
        assert_eq!(f.hash, groups[0].hash);
        assert_eq!(f.size, 21);
        assert_eq!(f.extension, "txt");
    }
    assert_eq!(groups[0].files[0].name, "a.txt");
}

#[test]
fn fast_scan_groups_by_size_alone() {
    let files: [(&str, &[u8]); 5] = [
        ("a.txt", b"Hello World identical"),
        ("b.txt", b"Hello World identical"),
        ("c.txt", b"Hello World unique here"),
        ("d.txt", b"Size identical, but...A"),
        ("e.txt", b"Size identical, but...B"),
    ];
    let entries = listing("dir", &files, "fast");
    assert!(entries.iter().all(|e| e.digest.is_none()));
    let groups = scan_for_duplicates("dir", &DirectoryListing::Entries(entries), "fast").unwrap();
    assert_eq!(groups.len(), 2);
    assert_eq!(groups[0].size, 23);
    assert_eq!(groups[0].hash, "size_23");
    let larger = paths(&groups[0]);
    assert!(larger.contains(&"dir/d.txt".to_string()));
    assert!(larger.contains(&"dir/e.txt".to_string()));
    assert_eq!(
        larger,
        vec!["dir/c.txt".to_string(), "dir/d.txt".to_string(), "dir/e.txt".to_string()]
    );
    assert_eq!(groups[1].size, 21);
    assert_eq!(groups[1].hash, "size_21");
    assert_eq!(paths(&groups[1]), vec!["dir/a.txt".to_string(), "dir/b.txt".to_string()]);
    assert_eq!(groups[1].files[1].hash, "size_21");
}

#[test]
fn fast_scan_may_join_files_of_different_content() {
    let entries = vec![sized("d", 23, Some("aa")), sized("e", 23, Some("bb"))];
    let fast = find_duplicates(&entries, false);
    assert_eq!(fast.len(), 1);
    assert_eq!(paths(&fast[0]), vec!["d".to_string(), "e".to_string()]);
    let strict = find_duplicates(&entries, true);
    assert!(strict.is_empty());
}

#[test]
fn files_of_unique_size_are_in_no_group() {
    let entries = vec![
        sized("one", 1, Some("x")),
        sized("two", 2, Some("x")),
        sized("three", 3, Some("x")),
    ];
    assert!(find_duplicates(&entries, false).is_empty());
    assert!(find_duplicates(&entries, true).is_empty());
}

#[test]
fn entries_that_are_no_files_or_have_no_size_are_skipped() {
    let mut folder = sized("folder", 7, Some("x"));
    folder.is_file = false;
    let mut unreadable = sized("unreadable", 7, Some("x"));
    unreadable.size = None;
    let entries = vec![folder, sized("a", 7, Some("x")), unreadable, sized("b", 7, Some("x"))];
    let groups = find_duplicates(&entries, false);
    assert_eq!(groups.len(), 1);
    assert_eq!(paths(&groups[0]), vec!["a".to_string(), "b".to_string()]);
    let strict = find_duplicates(&entries, true);
    assert_eq!(strict.len(), 1);
    assert_eq!(paths(&strict[0]), vec!["a".to_string(), "b".to_string()]);
}

#[test]
fn a_file_without_digest_leaves_the_others_grouped() {
    let entries = vec![
        sized("a", 9, Some("same")),
        sized("broken", 9, None),
        sized("b", 9, Some("same")),
        sized("c", 9, Some("other")),
    ];
    let groups = find_duplicates(&entries, true);
    assert_eq!(groups.len(), 1);
    assert_eq!(groups[0].hash, "same");
    assert_eq!(groups[0].size, 9);
    assert_eq!(paths(&groups[0]), vec!["a".to_string(), "b".to_string()]);
}

#[test]
fn groups_are_ordered_by_descending_size() {
    let entries = vec![
        sized("s1", 10, Some("s")),
        sized("l1", 300, Some("l")),
        sized("m1", 20, Some("m")),
        sized("s2", 10, Some("s")),
        sized("m2", 20, Some("m")),
        sized("l2", 300, Some("l")),
    ];
    let sizes: Vec<u64> = find_duplicates(&entries, true).iter().map(|g| g.size).collect();
    assert_eq!(sizes, vec![300, 20, 10]);
    let sizes: Vec<u64> = find_duplicates(&entries, false).iter().map(|g| g.size).collect();
    assert_eq!(sizes, vec![300, 20, 10]);
}

#[test]
fn groups_of_equal_size_keep_the_order_of_their_first_files() {
    let entries = vec![
        sized("x1", 5, Some("x")),
        sized("y1", 5, Some("y")),
        sized("big1", 8, Some("b")),
        sized("y2", 5, Some("y")),
        sized("x2", 5, Some("x")),
        sized("big2", 8, Some("b")),
    ];
    let groups = find_duplicates(&entries, true);
    let keys: Vec<String> = groups.iter().map(|g| g.hash.clone()).collect();
    assert_eq!(keys, vec!["b".to_string(), "x".to_string(), "y".to_string()]);
    assert_eq!(paths(&groups[1]), vec!["x1".to_string(), "x2".to_string()]);
    assert_eq!(paths(&groups[2]), vec!["y1".to_string(), "y2".to_string()]);
}

#[test]
fn every_group_has_two_or_more_files() {
    let entries = vec![
        sized("a", 4, Some("p")),
        sized("b", 4, Some("p")),
        sized("c", 4, Some("p")),
        sized("d", 4, Some("q")),
        sized("e", 6, Some("r")),
    ];
    for strict in [false, true] {
        let groups = find_duplicates(&entries, strict);
        assert!(!groups.is_empty());
        for group in &groups {
            assert!(group.files.len() >= 2);
        }
    }
    assert_eq!(find_duplicates(&entries, true)[0].files.len(), 3);
    assert_eq!(find_duplicates(&entries, false)[0].files.len(), 4);
}

#[test]
fn scanning_twice_gives_the_same_groups() {
    let entries = vec![
        sized("a", 4, Some("p")),
        sized("b", 4, Some("p")),
        sized("c", 6, Some("q")),
        sized("d", 6, Some("q")),
    ];
    for strict in [false, true] {
        let first = find_duplicates(&entries, strict);
        let second = find_duplicates(&entries, strict);
        assert_eq!(first.len(), second.len());
        for (one, other) in first.iter().zip(second.iter()) {
            assert_eq!(one.hash, other.hash);
            assert_eq!(one.size, other.size);
            assert_eq!(paths(one), paths(other));
        }
    }
}

#[test]
fn an_empty_directory_has_no_duplicates() {
    let groups = scan_for_duplicates("dir", &DirectoryListing::Entries(Vec::new()), "strict");
    assert!(groups.unwrap().is_empty());
}

#[test]
fn a_missing_path_fails_the_scan() {
    match scan_for_duplicates("/no/such/dir", &DirectoryListing::Missing, "strict") {
        Err(ScanError::NotFound(path)) => assert_eq!(path, "/no/such/dir"),
        _ => panic!("expected NotFound"),
    }
    let error = scan_for_duplicates("/no/such/dir", &DirectoryListing::Missing, "fast").err();
    assert_eq!(error.unwrap().message(), "フォルダが存在しません: /no/such/dir");
}

#[test]
fn a_path_that_is_no_directory_fails_the_scan() {
    match scan_for_duplicates("/etc/hosts", &DirectoryListing::NotADirectory, "fast") {
        Err(ScanError::NotADirectory(path)) => assert_eq!(path, "/etc/hosts"),
        _ => panic!("expected NotADirectory"),
    }
    let error = scan_for_duplicates("/etc/hosts", &DirectoryListing::NotADirectory, "fast").err();
    assert_eq!(error.unwrap().message(), "ディレクトリではありません: /etc/hosts");
}

#[test]
fn an_unreadable_directory_fails_the_scan() {
    let listing = DirectoryListing::Unreadable("permission denied".to_string());
    match scan_for_duplicates("/root", &listing, "strict") {
        Err(ScanError::IoError(reason)) => assert_eq!(reason, "permission denied"),
        _ => panic!("expected IoError"),
    }
    let error = scan_for_duplicates("/root", &listing, "strict").err();
    assert_eq!(error.unwrap().message(), "フォルダの読み取りに失敗: permission denied");
}

#[test]
fn only_the_mode_strict_is_strict() {
    assert!(strict_mode("strict"));
    assert!(!strict_mode("fast"));
    assert!(!strict_mode("size_only"));
    assert!(!strict_mode("Strict"));
    assert!(!strict_mode(""));
    let entries = vec![sized("d", 23, Some("aa")), sized("e", 23, Some("bb"))];
    let listing = DirectoryListing::Entries(entries);
    assert_eq!(scan_for_duplicates("dir", &listing, "anything").unwrap().len(), 1);
    assert_eq!(scan_for_duplicates("dir", &listing, "strict").unwrap().len(), 0);
}

#[test]
fn only_files_that_share_their_size_are_hashed() {
    let mut folder = sized("folder", 7, None);
    folder.is_file = false;
    let entries = vec![
        sized("a", 7, None),
        sized("alone", 1, None),
        folder,
        sized("b", 3, None),
        sized("c", 7, None),
        sized("d", 3, None),
    ];
    assert_eq!(hash_candidates(&entries, "strict"), vec![0, 4, 3, 5]);
    assert!(hash_candidates(&entries, "fast").is_empty());
}

#[test]
fn the_fast_key_is_the_size_in_decimal() {
    let entries = vec![sized("a", 18446744073709551615, None), sized("b", 18446744073709551615, None)];
    let groups = find_duplicates(&entries, false);
    assert_eq!(groups[0].hash, "size_18446744073709551615");
    let entries = vec![sized("a", 0, None), sized("b", 0, None)];
    let groups = find_duplicates(&entries, false);
    assert_eq!(groups[0].hash, "size_0");
    assert_eq!(groups[0].files[0].hash, "size_0");
}

#[test]
fn the_order_of_the_listing_does_not_change_the_groups() {
    let forward = vec![
        sized("a", 4, Some("p")),
        sized("b", 6, Some("q")),
        sized("c", 4, Some("p")),
        sized("d", 6, Some("q")),
        sized("e", 4, Some("other")),
    ];
    let mut backward = forward.clone();
    backward.reverse();
    for strict in [false, true] {
        let first = find_duplicates(&forward, strict);
        let second = find_duplicates(&backward, strict);
        assert_eq!(first.len(), 2);
        assert_eq!(second.len(), 2);
        for (one, other) in first.iter().zip(second.iter()) {
            assert_eq!(one.hash, other.hash);
            assert_eq!(one.size, other.size);
            let mut members = paths(one);
            let mut others = paths(other);
            members.sort();
            others.sort();
            assert_eq!(members, others);
        }
    }
}

#[test]
fn digests_of_other_files_do_not_matter() {
    let hashed_all = vec![
        sized("a", 4, Some("p")),
        sized("alone", 9, Some("z")),
        sized("b", 4, Some("p")),
    ];
    let mut hashed_candidates = hashed_all.clone();
    hashed_candidates[1].digest = None;
    let first = find_duplicates(&hashed_all, true);
    let second = find_duplicates(&hashed_candidates, true);
    assert_eq!(first.len(), 1);
    assert_eq!(second.len(), 1);
    assert_eq!(paths(&first[0]), paths(&second[0]));
    assert_eq!(first[0].hash, second[0].hash);
}
