use crabsort::duplicates::{
    build_dir_flatmap, candidates_by_partial_hash, candidates_by_size, duplicates_by_full_hash,
    find_same_size_files_recursive_parallel, group_by_full_hash, group_by_hash,
    group_by_partial_hash, keep_hash_duplicates, keep_size_duplicates, merge_groups,
    add_new_groups, partial_hash, read_plan, sample_of, size_in_range, ContentHasher, FileInfo,
    FoundFile, HashGroup,
};

fn file(path: &str, size: u64, head: &[u8]) -> FileInfo {
    let mut s = [0u8; 8192];
    s[..head.len()].copy_from_slice(head);
    FileInfo::new(path.to_string(), size, s)
}

fn paths(files: &[FileInfo]) -> Vec<&str> {
    files.iter().map(|f| f.path.as_str()).collect()
}

fn hash_group(hash: &str, files: Vec<FileInfo>) -> HashGroup {
    HashGroup { hash: hash.to_string(), files }
}

#[test]
fn groups_by_size_in_first_seen_order() {
    let files = vec![file("a", 5, b""), file("b", 7, b""), file("c", 5, b""), file("d", 9, b"")];
    let groups = find_same_size_files_recursive_parallel(files);
    assert_eq!(groups.len(), 3);
    assert_eq!(groups[0].size, 5);
    assert_eq!(paths(&groups[0].files), vec!["a", "c"]);
    assert_eq!(groups[1].size, 7);
    assert_eq!(paths(&groups[1].files), vec!["b"]);
    assert_eq!(groups[2].size, 9);
}

#[test]
fn grouping_keeps_every_file() {
    let files: Vec<FileInfo> = (0..20u64).map(|i| file(&format!("f{i}"), i % 4, b"")).collect();
    let groups = find_same_size_files_recursive_parallel(files);
    let total: usize = groups.iter().map(|g| g.files.len()).sum();
    assert_eq!(total, 20);
    for g in &groups {
        assert!(g.files.iter().all(|f| f.size == g.size));
    }
}

#[test]
fn size_stage_keeps_shared_sizes_and_counts() {
    let files = vec![file("a", 5, b""), file("b", 7, b""), file("c", 5, b""), file("d", 5, b"")];
    let (groups, n) = candidates_by_size(files);
    assert_eq!(groups.len(), 1);
    assert_eq!(groups[0].size, 5);
    assert_eq!(n, 3);
}

#[test]
fn keep_duplicates_drops_singletons() {
    let files = vec![file("a", 1, b""), file("b", 2, b""), file("c", 1, b"")];
    let (kept, n) = keep_size_duplicates(find_same_size_files_recursive_parallel(files));
    assert_eq!(kept.len(), 1);
    assert_eq!(n, 2);
    let (kept, n) = keep_hash_duplicates(vec![
        hash_group("x", vec![file("a", 1, b"")]),
        hash_group("y", vec![file("b", 1, b""), file("c", 1, b"")]),
    ]);
    assert_eq!(kept.len(), 1);
    assert_eq!(kept[0].hash, "y");
    assert_eq!(n, 2);
}

#[test]
fn partial_hash_is_md5_of_the_sample() {
    assert_eq!(partial_hash(&file("z", 1, b"")), "0829f71740aab1ab98b33eae21dee122");
    assert_eq!(partial_hash(&file("z", 1, b"abc")), "de4a5bf485e6a1985514656b8f68b7c3");
}

#[test]
fn groups_by_given_hash_texts() {
    let files = vec![file("a", 1, b""), file("b", 1, b""), file("c", 1, b"")];
    let hashes = vec!["h2".to_string(), "h1".to_string(), "h2".to_string()];
    let groups = group_by_hash(files, hashes);
    assert_eq!(groups.len(), 2);
    assert_eq!(groups[0].hash, "h2");
    assert_eq!(paths(&groups[0].files), vec!["a", "c"]);
    assert_eq!(groups[1].hash, "h1");
}

#[test]
fn groups_by_quick_fingerprint() {
    let files = vec![file("a", 1, b"abc"), file("b", 1, b""), file("c", 1, b"abc")];
    let groups = group_by_partial_hash(files);
    assert_eq!(groups.len(), 2);
    assert_eq!(groups[0].hash, "de4a5bf485e6a1985514656b8f68b7c3");
    assert_eq!(paths(&groups[0].files), vec!["a", "c"]);
    assert_eq!(groups[1].hash, "0829f71740aab1ab98b33eae21dee122");
}

#[test]
fn full_hash_grouping_skips_unknown_hashes() {
    let files = vec![file("a", 1, b""), file("b", 1, b""), file("c", 1, b"")];
    let hashes = vec![Some("k".to_string()), None, Some("k".to_string())];
    let groups = group_by_full_hash(files, &hashes);
    assert_eq!(groups.len(), 1);
    assert_eq!(paths(&groups[0].files), vec!["a", "c"]);
}

#[test]
fn merge_extends_or_appends() {
    let mut into = vec![hash_group("x", vec![file("a", 1, b"")])];
    merge_groups(&mut into, vec![
        hash_group("y", vec![file("b", 1, b"")]),
        hash_group("x", vec![file("c", 1, b"")]),
    ]);
    assert_eq!(into.len(), 2);
    assert_eq!(paths(&into[0].files), vec!["a", "c"]);
    assert_eq!(into[1].hash, "y");
}

#[test]
fn add_new_keeps_the_first_group_of_a_hash() {
    let mut into = vec![hash_group("x", vec![file("a", 1, b"")])];
    add_new_groups(&mut into, vec![
        hash_group("x", vec![file("c", 1, b"")]),
        hash_group("y", vec![file("b", 1, b"")]),
    ]);
    assert_eq!(into.len(), 2);
    assert_eq!(paths(&into[0].files), vec!["a"]);
    assert_eq!(into[1].hash, "y");
}

#[test]
fn content_hasher_gives_blake3_hex() {
    let h = ContentHasher::new();
    assert_eq!(h.finish_hex(), "af1349b9f5f9a1a6a0404dea36dcc9499bcb25c9adc112b7cc9a93cae41f3262");
    let mut h = ContentHasher::new();
    h.update(b"a");
    h.update(b"bc");
    assert_eq!(h.finish_hex(), "6437b3ac38465133ffb63b75273a8db548c558465d79db03fd359c6cd5bd9d85");
}

#[test]
fn whole_search_finds_identical_files() {
    let files = vec![
        file("a", 200, b"same"),
        file("b", 200, b"same"),
        file("c", 200, b"other"),
        file("d", 300, b"same"),
        file("e", 200, b"same"),
    ];
    let (by_size, n1) = candidates_by_size(files);
    assert_eq!(n1, 4);
    let (partial, n2) = candidates_by_partial_hash(by_size);
    assert_eq!(n2, 3);
    assert_eq!(partial.len(), 1);
    assert_eq!(paths(&partial[0].files), vec!["a", "b", "e"]);
    let hashes = vec![vec![Some("h".to_string()), Some("g".to_string()), Some("h".to_string())]];
    let dups = duplicates_by_full_hash(partial, hashes);
    assert_eq!(dups.len(), 1);
    assert_eq!(dups[0].hash, "h");
    assert_eq!(paths(&dups[0].files), vec!["a", "e"]);
}

#[test]
fn search_bounds() {
    assert!(size_in_range(10, 10, 20));
    assert!(size_in_range(20, 10, 20));
    assert!(!size_in_range(9, 10, 20));
    assert!(!size_in_range(21, 10, 20));
    let found = vec![
        FoundFile { path: "small".to_string(), size: 102399 },
        FoundFile { path: "low".to_string(), size: 102400 },
        FoundFile { path: "high".to_string(), size: 1073741824 },
        FoundFile { path: "huge".to_string(), size: 1073741825 },
    ];
    let kept = build_dir_flatmap(found);
    let names: Vec<&str> = kept.iter().map(|f| f.path.as_str()).collect();
    assert_eq!(names, vec!["low", "high"]);
}

#[test]
fn sample_layout() {
    assert_eq!(read_plan(10), (10, 0));
    assert_eq!(read_plan(4096), (4096, 0));
    assert_eq!(read_plan(5000), (4096, 4096));
    let s = sample_of(b"ab", b"yz");
    assert_eq!(s[0], b'a');
    assert_eq!(s[1], b'b');
    assert_eq!(s[2], 0);
    assert_eq!(s[4096], b'y');
    assert_eq!(s[4097], b'z');
    assert_eq!(s[4098], 0);
    assert_eq!(s[8191], 0);
}

#[test]
fn equal_files_in_different_orders_end_up_together() {
    let files = vec![
        file("x1", 500, b"same"),
        file("y", 700, b"same"),
        file("z", 500, b"diff"),
        file("x2", 500, b"same"),
    ];
    let (by_size, _) = candidates_by_size(files);
    let (partial, _) = candidates_by_partial_hash(by_size);
    assert_eq!(partial.len(), 1);
    assert_eq!(paths(&partial[0].files), vec!["x1", "x2"]);
    let hashes = vec![vec![Some("c".to_string()), Some("c".to_string())]];
    let dups = duplicates_by_full_hash(partial, hashes);
    assert_eq!(dups.len(), 1);
    assert_eq!(paths(&dups[0].files), vec!["x1", "x2"]);
}
