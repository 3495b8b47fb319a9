use elio::batches::{
    DuplicateBatchEmitter, DuplicateScanBatch, DUPLICATE_BATCH_GROUP_SIZE,
    DUPLICATE_BATCH_MAX_LATENCY,
};
use elio::check::HashOutcome;
use elio::digest::{partial_content_fingerprint, partial_reads, ContentHasher, PARTIAL_CHUNK_SIZE};
use elio::duplicates::{
    breathe_after_hash_chunk, breathe_after_node, candidate_bucket_priority,
    candidate_bucket_read_bytes, compare_candidate_buckets, compare_groups,
    duplicate_candidate_bytes, is_hidden_name, metadata_changed_time, saturating_product,
    should_prune_dir, sort_duplicate_groups, Breath, Bucket, BucketPriority, CandidateFile,
    DuplicateFile, DuplicateGroup, DuplicateHashCacheKey, DuplicateScanPhase, DuplicateScanStats,
    FileIdentity, Timestamp,
};
use elio::file_reading::{Comparison, FileComparison, FileHashing};
use elio::hash_cache::DuplicateHashCache;
use elio::natural::natural_compare;
use elio::order::{stable_sort, Order};
use elio::path::FilePath;
use elio::platform::Platform;
use elio::scan::{DuplicateScan, DuplicateScanResult, ScanAction};
use elio::walk::{DirEntry, EntryKind, FileFacts, FilePlace, Visit, Walk};

fn candidate(name: &str, size: u64) -> CandidateFile {
    CandidateFile {
        path: FilePath::from_text(name),
        name: name.to_string(),
        relative: name.to_string(),
        size,
        modified: None,
        cache_key: None,
    }
}

fn candidates(stem: &str, count: usize, size: u64) -> Vec<CandidateFile> {
    (0..count)
        .map(|index| candidate(&format!("{stem}-{index}"), size))
        .collect()
}

fn duplicate_group(id: u64, size: u64, names: &[&str]) -> DuplicateGroup {
    DuplicateGroup {
        id,
        size,
        files: names
            .iter()
            .map(|name| DuplicateFile {
                path: FilePath::from_text(name),
                name: name.to_string(),
                relative: name.to_string(),
                size,
                modified: None,
            })
            .collect(),
    }
}

/// A file system that is kept in memory: below `/root` some files, each with a
/// number that stands for when it was written.
struct Tree {
    files: Vec<(String, Vec<u8>, i64)>,
}

impl Tree {
    fn new(files: &[(&str, &[u8])]) -> Tree {
        Tree {
            files: files
                .iter()
                .map(|(name, content)| (format!("/root/{name}"), content.to_vec(), 1))
                .collect(),
        }
    }

    fn write(&mut self, name: &str, content: &[u8], written: i64) {
        for file in self.files.iter_mut() {
            if file.0 == format!("/root/{name}") {
                file.1 = content.to_vec();
                file.2 = written;
            }
        }
    }

    fn content(&self, path: &FilePath) -> &[u8] {
        let text = path.display(Platform::Linux);
        for file in &self.files {
            if file.0 == text {
                return &file.1;
            }
        }
        panic!("no such file");
    }

    fn list(&self, dir: &FilePath) -> Vec<DirEntry> {
        let prefix = format!("{}/", dir.display(Platform::Linux));
        let mut seen: Vec<String> = Vec::new();
        let mut entries = Vec::new();
        for (place, (path, content, written)) in self.files.iter().enumerate() {
            let Some(rest) = path.strip_prefix(&prefix) else {
                continue;
            };
            let name = rest.split('/').next().unwrap().to_string();
            if seen.contains(&name) {
                continue;
            }
            seen.push(name.clone());
            let is_dir = rest.contains('/');
            let at = Some(Timestamp {
                secs: *written,
                nanos: 0,
            });
            entries.push(DirEntry {
                path: dir.join(name.as_bytes()),
                name: name.as_bytes().to_vec(),
                hidden: is_hidden_name(name.as_bytes()),
                kind: Some(if is_dir {
                    EntryKind::Directory
                } else {
                    EntryKind::File
                }),
                facts: Some(FileFacts {
                    size: content.len() as u64,
                    modified: at,
                    changed: at,
                    place: Some(FilePlace {
                        dev: 1,
                        ino: place as u64,
                    }),
                }),
            });
        }
        entries
    }
}

fn hash_file(
    scan: &mut DuplicateScan,
    content: &[u8],
    now: u64,
    batches: &mut Vec<DuplicateScanBatch>,
) -> HashOutcome {
    let mut hashing = FileHashing::new();
    for piece in content.chunks(3) {
        let (batch, _) = scan.hash_chunk(&mut hashing, piece, now);
        batches.extend(batch);
    }
    HashOutcome::Hashed(hashing.finish())
}

fn same_content(left: &[u8], right: &[u8]) -> bool {
    let mut comparison = FileComparison::new();
    let mut at = 0;
    loop {
        let a = &left[at.min(left.len())..(at + 5).min(left.len())];
        let b = &right[at.min(right.len())..(at + 5).min(right.len())];
        match comparison.chunk(a, b) {
            Comparison::Decided(equal) => return equal,
            Comparison::Continue(_) => at += 5,
        }
    }
}

fn scan_tree(
    tree: &Tree,
    show_hidden: bool,
    cache: &mut DuplicateHashCache,
    batches: &mut Vec<DuplicateScanBatch>,
) -> DuplicateScanResult {
    scan_while(tree, show_hidden, cache, batches, |_| true)
}

/// Searches until a batch is not wanted any more.
fn scan_while(
    tree: &Tree,
    show_hidden: bool,
    cache: &mut DuplicateHashCache,
    batches: &mut Vec<DuplicateScanBatch>,
    wanted: impl Fn(&DuplicateScanBatch) -> bool,
) -> DuplicateScanResult {
    let root = FilePath::from_text("/root");
    let mut walk = Walk::new(&root, show_hidden, Platform::Linux);
    while let Some(dir) = walk.next_directory(false) {
        for entry in tree.list(&dir) {
            if matches!(walk.visit(false, Some(entry)), Visit::Stop) {
                break;
            }
        }
        walk.finish_directory();
    }
    let mut scan = DuplicateScan::new(walk);
    let now = 7;
    loop {
        match scan.step(false, now, cache) {
            ScanAction::Again => {}
            ScanAction::Emit(batch) => {
                let taken = wanted(&batch);
                batches.push(batch);
                scan.accepted(taken);
            }
            ScanAction::Glimpse(path, size, _) => {
                let content = tree.content(&path);
                let (first, last) = partial_reads(size);
                let tail = match last {
                    Some(offset) => &content[offset as usize..],
                    None => &[],
                };
                let digest = partial_content_fingerprint(size, &content[..first], tail);
                scan.glimpsed(Some(digest));
            }
            ScanAction::Hash(path) => {
                let outcome = hash_file(&mut scan, tree.content(&path), now, batches);
                scan.hashed(outcome, cache);
            }
            ScanAction::Compare(left, right) => {
                scan.compared(same_content(tree.content(&left), tree.content(&right)));
            }
            ScanAction::Done => return scan.into_result(),
        }
    }
}

fn scan_once(tree: &Tree, show_hidden: bool) -> DuplicateScanResult {
    scan_tree(
        tree,
        show_hidden,
        &mut DuplicateHashCache::new(),
        &mut Vec::new(),
    )
}

fn shape(groups: &[DuplicateGroup]) -> Vec<(u64, u64, Vec<String>)> {
    groups
        .iter()
        .map(|group| {
            (
                group.id,
                group.size,
                group.files.iter().map(|f| f.relative.clone()).collect(),
            )
        })
        .collect()
}

#[test]
fn duplicate_group_order_prefers_larger_files_before_larger_reclaimable_groups() {
    let mut groups = vec![
        duplicate_group(1, 700 * 1024, &["small-a", "small-b", "small-c", "small-d"]),
        duplicate_group(2, 20 * 1024 * 1024, &["medium-a", "medium-b"]),
        duplicate_group(
            3,
            20 * 1024 * 1024,
            &["medium-more-a", "medium-more-b", "medium-more-c"],
        ),
        duplicate_group(4, 460 * 1024 * 1024, &["large-a", "large-b"]),
    ];

    sort_duplicate_groups(&mut groups);

    assert_eq!(
        groups.iter().map(|group| group.id).collect::<Vec<_>>(),
        vec![4, 3, 2, 1]
    );
}

#[test]
fn candidate_bucket_order_does_not_let_huge_low_count_files_starve_cheap_groups() {
    let huge_size = 16 * 1024 * 1024 * 1024;
    let buckets = vec![
        Bucket {
            files: candidates("huge", 6, huge_size),
        },
        Bucket {
            files: candidates("small", 20, 1024),
        },
    ];

    let buckets = stable_sort(buckets);

    assert_eq!(buckets[0].files[0].size, 1024);
    assert_eq!(buckets[1].files[0].size, huge_size);
}

#[test]
fn same_session_cache_reuses_unchanged_content_hashes() {
    let tree = Tree::new(&[("a.txt", b"same"), ("b.txt", b"same")]);
    let mut cache = DuplicateHashCache::new();

    let first = scan_tree(&tree, true, &mut cache, &mut Vec::new());
    let second = scan_tree(&tree, true, &mut cache, &mut Vec::new());

    assert_eq!(shape(&first.groups), shape(&second.groups));
    assert_eq!(first.stats.cached_hashes, 0);
    assert_eq!(first.stats.checked_candidates, first.stats.candidate_files);
    assert_eq!(second.stats.cached_hashes, second.stats.hashed_files);
    assert_eq!(
        second.stats.checked_candidates,
        second.stats.candidate_files
    );
    assert_eq!(second.stats.processed_bytes, 0);
}

#[test]
fn same_session_cache_misses_when_file_metadata_changes() {
    let mut tree = Tree::new(&[("a.txt", b"same"), ("b.txt", b"same")]);
    let mut cache = DuplicateHashCache::new();

    let first = scan_tree(&tree, true, &mut cache, &mut Vec::new());
    tree.write("a.txt", b"diff", 2);
    let second = scan_tree(&tree, true, &mut cache, &mut Vec::new());

    assert_eq!(first.groups.len(), 1);
    assert!(second.groups.is_empty());
    assert_eq!(
        second.stats.checked_candidates,
        second.stats.candidate_files
    );
    assert!(second.stats.cached_hashes < second.stats.hashed_files);
    assert!(second.stats.processed_bytes > 0);
}

#[test]
fn scan_groups_exact_duplicate_files_by_content_not_name() {
    let tree = Tree::new(&[
        ("a.txt", b"same"),
        ("nested/renamed.bin", b"same"),
        ("different.txt", b"diff"),
    ]);

    let result = scan_once(&tree, true);

    assert_eq!(result.groups.len(), 1);
    assert_eq!(result.groups[0].files.len(), 2);
    assert_eq!(result.groups[0].duplicate_bytes(), 4);
    assert_eq!(
        shape(&result.groups)[0].2,
        vec!["a.txt".to_string(), "nested/renamed.bin".to_string()]
    );
}

#[test]
fn scan_coalesces_small_duplicate_batches() {
    let tree = Tree::new(&[
        ("a1.txt", b"aa"),
        ("a2.txt", b"aa"),
        ("b1.txt", b"bbb"),
        ("b2.txt", b"bbb"),
        ("c1.txt", b"cccc"),
        ("c2.txt", b"cccc"),
    ]);

    let mut batches = Vec::new();
    let result = scan_tree(&tree, true, &mut DuplicateHashCache::new(), &mut batches);

    assert_eq!(result.groups.len(), 3);
    let group_batches = batches
        .iter()
        .filter(|batch| !batch.groups.is_empty())
        .collect::<Vec<_>>();
    assert_eq!(group_batches.len(), 1);
    assert_eq!(group_batches[0].groups.len(), 3);
    assert_eq!(result.stats.phase, DuplicateScanPhase::Complete);
    let phases = batches
        .iter()
        .map(|batch| batch.stats.phase)
        .collect::<Vec<_>>();
    assert!(phases.contains(&DuplicateScanPhase::SizeGrouping));
    assert!(phases.contains(&DuplicateScanPhase::ContentChecking));
    assert_eq!(result.stats.candidate_files, 6);
    assert_eq!(result.stats.checked_candidates, 6);
    assert_eq!(result.stats.hashed_files, 6);
    assert!(result.stats.processed_bytes > 0);
    assert_eq!(result.stats.processed_bytes, 18);
}

#[test]
fn scan_respects_hidden_file_setting_for_directories() {
    let tree = Tree::new(&[
        ("visible/a.txt", b"visible duplicate"),
        ("visible/b.txt", b"visible duplicate"),
        (".cache/a.txt", b"hidden duplicate"),
        (".cache/b.txt", b"hidden duplicate"),
    ]);

    let hidden_off = scan_once(&tree, false);
    assert_eq!(hidden_off.groups.len(), 1);
    assert!(hidden_off.groups[0]
        .files
        .iter()
        .all(|file| file.relative.starts_with("visible/")));

    let hidden_on = scan_once(&tree, true);
    assert_eq!(hidden_on.groups.len(), 2);
    assert!(hidden_on.groups.iter().any(|group| {
        group
            .files
            .iter()
            .all(|file| file.relative.starts_with(".cache/"))
    }));
}

#[test]
fn scan_ignores_zero_byte_files() {
    let tree = Tree::new(&[("a", b""), ("b", b"")]);

    let result = scan_once(&tree, true);

    assert!(result.groups.is_empty());
}

#[test]
fn large_files_are_told_apart_in_the_middle() {
    let mut odd = vec![b'x'; 300 * 1024];
    odd[150 * 1024] = b'y';
    let plain = vec![b'x'; 300 * 1024];
    let tree = Tree::new(&[("a", &plain), ("b", &odd), ("c", &plain)]);

    let result = scan_once(&tree, true);

    assert_eq!(shape(&result.groups).len(), 1);
    assert_eq!(
        shape(&result.groups)[0].2,
        vec!["a".to_string(), "c".to_string()]
    );
    assert_eq!(result.stats.hashed_files, 3);
}

#[test]
fn large_files_with_other_ends_are_not_read_whole() {
    let mut odd = vec![b'x'; 300 * 1024];
    odd[300 * 1024 - 1] = b'y';
    let plain = vec![b'x'; 300 * 1024];
    let tree = Tree::new(&[("a", &plain), ("b", &odd)]);

    let result = scan_once(&tree, true);

    assert!(result.groups.is_empty());
    assert_eq!(result.stats.hashed_files, 0);
    assert_eq!(result.stats.checked_candidates, 2);
}

#[test]
fn pruned_directories_are_not_searched() {
    let tree = Tree::new(&[
        ("node_modules/a", b"same"),
        ("target/b", b"same"),
        (".git/c", b"same"),
        ("Target/d", b"same"),
    ]);
    let result = scan_once(&tree, true);
    assert!(result.groups.is_empty());
    assert_eq!(result.stats.visited_nodes, 4);
    for name in [".git", "node_modules", "target"] {
        assert!(should_prune_dir(name));
    }
    assert!(!should_prune_dir("src"));
}

#[test]
fn every_group_arrives_in_a_batch() {
    let tree = Tree::new(&[
        ("a", b"1"),
        ("b", b"1"),
        ("c", b"22"),
        ("d", b"22"),
        ("e", b"33"),
        ("f", b"33"),
    ]);
    let mut batches = Vec::new();
    let result = scan_tree(&tree, true, &mut DuplicateHashCache::new(), &mut batches);
    let mut ids: Vec<u64> = batches
        .iter()
        .flat_map(|batch| batch.groups.iter().map(|group| group.id))
        .collect();
    ids.sort();
    let mut expected: Vec<u64> = result.groups.iter().map(|group| group.id).collect();
    expected.sort();
    assert_eq!(ids, expected);
    assert_eq!(expected.len(), 3);
}

#[test]
fn refused_batch_ends_the_search() {
    let tree = Tree::new(&[("a", b"1"), ("b", b"1")]);
    let root = FilePath::from_text("/root");
    let mut walk = Walk::new(&root, true, Platform::Linux);
    let dir = walk.next_directory(false).unwrap();
    for entry in tree.list(&dir) {
        walk.visit(false, Some(entry));
    }
    walk.finish_directory();
    let mut scan = DuplicateScan::new(walk);
    let cache = DuplicateHashCache::new();
    let ScanAction::Emit(batch) = scan.step(false, 0, &cache) else {
        panic!("progress comes first");
    };
    assert_eq!(batch.stats.phase, DuplicateScanPhase::SizeGrouping);
    scan.accepted(false);
    assert!(matches!(scan.step(false, 0, &cache), ScanAction::Done));
    let result = scan.into_result();
    assert!(result.groups.is_empty());
    assert!(result.stats.phase != DuplicateScanPhase::Complete);
}

/// Pairs of equal files, the first pair of one byte, the next of two bytes.
fn pairs(count: usize) -> Tree {
    let contents: Vec<Vec<u8>> = (1..=count).map(|size| vec![7; size]).collect();
    let names: Vec<(String, String)> = (1..=count)
        .map(|size| (format!("left-{size}"), format!("right-{size}")))
        .collect();
    let mut files: Vec<(&str, &[u8])> = Vec::new();
    for (name, content) in names.iter().zip(&contents) {
        files.push((&name.0, content));
        files.push((&name.1, content));
    }
    Tree::new(&files)
}

#[test]
fn groups_are_numbered_and_counted() {
    let result = scan_once(&pairs(10), true);
    let mut ids: Vec<u64> = result.groups.iter().map(|group| group.id).collect();
    ids.sort();
    assert_eq!(ids, vec![1, 2, 3, 4, 5, 6, 7, 8, 9, 10]);
    assert_eq!(result.stats.groups, 10);
    assert_eq!(result.stats.duplicate_bytes, 55);
}

#[test]
fn unreadable_files_are_counted_as_checked() {
    let tree = Tree::new(&[("a", b"12"), ("b", b"21"), ("c", b"12"), ("d", b"3"), ("e", b"3")]);
    let mut walk = Walk::new(&FilePath::from_text("/root"), true, Platform::Linux);
    let dir = walk.next_directory(false).unwrap();
    for entry in tree.list(&dir) {
        walk.visit(false, Some(entry));
    }
    walk.finish_directory();
    let mut scan = DuplicateScan::new(walk);
    let mut cache = DuplicateHashCache::new();
    let result = loop {
        match scan.step(false, 0, &cache) {
            ScanAction::Again => {}
            ScanAction::Emit(_) => scan.accepted(true),
            ScanAction::Glimpse(_, _, _) => scan.glimpsed(None),
            ScanAction::Hash(_) => scan.hashed(HashOutcome::Failed, &mut cache),
            ScanAction::Compare(_, _) => scan.compared(false),
            ScanAction::Done => break scan.into_result(),
        }
    };
    assert_eq!(result.stats.candidate_files, 5);
    assert_eq!(result.stats.checked_candidates, 5);
    assert!(result.groups.is_empty());
}

#[test]
fn unreadable_root_is_named_as_the_platform_writes_it() {
    let root = FilePath::from_text("C:/data");
    let walk = Walk::new(&root, true, Platform::Windows);
    assert_eq!(
        walk.directory_unreadable(&root),
        Err("failed to read C:\\data".to_string())
    );
}

#[test]
fn no_path_is_in_two_groups() {
    let tree = Tree::new(&[
        ("a", b"11"),
        ("b", b"22"),
        ("c", b"11"),
        ("d", b"22"),
        ("sub/a", b"11"),
        ("sub/e", b"333"),
    ]);
    let result = scan_once(&tree, true);
    let mut paths: Vec<String> = result
        .groups
        .iter()
        .flat_map(|group| group.files.iter().map(|file| file.path.display(Platform::Linux)))
        .collect();
    paths.sort();
    assert_eq!(
        paths,
        vec!["/root/a", "/root/b", "/root/c", "/root/d", "/root/sub/a"]
    );
}

#[test]
fn batches_hold_a_limited_number_of_groups() {
    let mut batches = Vec::new();
    let result = scan_tree(&pairs(150), true, &mut DuplicateHashCache::new(), &mut batches);
    let sizes: Vec<usize> = batches
        .iter()
        .map(|batch| batch.groups.len())
        .filter(|size| *size > 0)
        .collect();
    assert_eq!(sizes, vec![DUPLICATE_BATCH_GROUP_SIZE, 22]);
    assert_eq!(result.groups.len(), 150);
}

#[test]
fn batches_make_up_the_result_of_a_search_that_was_stopped() {
    let mut batches = Vec::new();
    let result = scan_while(
        &pairs(150),
        true,
        &mut DuplicateHashCache::new(),
        &mut batches,
        |batch| batch.groups.is_empty(),
    );
    assert_eq!(result.groups.len(), DUPLICATE_BATCH_GROUP_SIZE);
    assert!(result.stats.phase != DuplicateScanPhase::Complete);
    let mut shown: Vec<(u64, u64, Vec<String>)> = batches
        .iter()
        .flat_map(|batch| shape(&batch.groups))
        .collect();
    shown.sort();
    let mut found = shape(&result.groups);
    found.sort();
    assert_eq!(shown, found);
}

#[test]
fn files_that_only_look_alike_are_compared() {
    let tree = Tree::new(&[("a", b"12"), ("b", b"21"), ("c", b"12")]);
    let root = FilePath::from_text("/root");
    let mut walk = Walk::new(&root, true, Platform::Linux);
    let dir = walk.next_directory(false).unwrap();
    for entry in tree.list(&dir) {
        walk.visit(false, Some(entry));
    }
    walk.finish_directory();
    let mut scan = DuplicateScan::new(walk);
    let mut cache = DuplicateHashCache::new();
    let result = loop {
        match scan.step(false, 0, &cache) {
            ScanAction::Again => {}
            ScanAction::Emit(_) => scan.accepted(true),
            ScanAction::Glimpse(_, _, _) => {
                scan.glimpsed(Some(partial_content_fingerprint(2, b"xx", &[])));
            }
            ScanAction::Hash(_) => {
                let digest = FileHashing::new().finish();
                scan.hashed(HashOutcome::Hashed(digest), &mut cache);
            }
            ScanAction::Compare(left, right) => {
                scan.compared(same_content(tree.content(&left), tree.content(&right)));
            }
            ScanAction::Done => break scan.into_result(),
        }
    };
    assert_eq!(
        shape(&result.groups),
        vec![(1, 2, vec!["a".to_string(), "c".to_string()])]
    );
}

/// Walks a tree and gives the paths found, in order.
fn walked(tree: &Tree, show_hidden: bool) -> Vec<String> {
    let mut walk = Walk::new(&FilePath::from_text("/root"), show_hidden, Platform::Linux);
    while let Some(dir) = walk.next_directory(false) {
        for entry in tree.list(&dir) {
            walk.visit(false, Some(entry));
        }
        walk.finish_directory();
    }
    assert!(!walk.stats.node_limit_reached);
    let mut found: Vec<String> = Vec::new();
    for bucket in walk.finish().0 {
        for file in &bucket.files {
            found.push(file.path.display(Platform::Linux));
        }
    }
    found.sort();
    found
}

#[test]
fn walk_finds_the_files_of_the_tree() {
    let tree = Tree::new(&[
        ("one", b"1"),
        ("empty", b""),
        (".hidden", b"2"),
        ("sub/two", b"3"),
        ("sub/deep/three", b"4"),
        (".dark/four", b"5"),
        ("node_modules/five", b"6"),
        ("sub/.git/six", b"7"),
    ]);
    assert_eq!(
        walked(&tree, false),
        vec!["/root/one", "/root/sub/deep/three", "/root/sub/two"]
    );
    assert_eq!(
        walked(&tree, true),
        vec![
            "/root/.dark/four",
            "/root/.hidden",
            "/root/one",
            "/root/sub/deep/three",
            "/root/sub/two"
        ]
    );
}

#[test]
fn equal_files_of_a_tree_are_grouped() {
    let tree = Tree::new(&[
        ("near", b"same"),
        ("other", b"else"),
        ("sub/deep/far", b"same"),
        ("target/left out", b"same"),
    ]);
    assert_eq!(
        shape(&scan_once(&tree, false).groups),
        vec![(1, 4, vec!["near".to_string(), "sub/deep/far".to_string()])]
    );
}

#[test]
fn walk_stops_when_canceled_and_says_what_was_unreadable() {
    let root = FilePath::from_text("/root");
    let mut walk = Walk::new(&root, true, Platform::Linux);
    assert!(walk.next_directory(true).is_none());
    let walk = Walk::new(&root, true, Platform::Linux);
    assert_eq!(
        walk.directory_unreadable(&FilePath::from_text("/root/")),
        Err("failed to read /root".to_string())
    );
    assert_eq!(
        walk.directory_unreadable(&FilePath::from_text("/root/sub")),
        Ok(())
    );
}

#[test]
fn links_and_unreadable_entries_are_passed_over() {
    let root = FilePath::from_text("/root");
    let mut walk = Walk::new(&root, true, Platform::Linux);
    assert!(walk.next_directory(false).is_some());
    let facts = FileFacts {
        size: 4,
        modified: None,
        changed: None,
        place: None,
    };
    for (name, kind) in [
        ("link", Some(EntryKind::Symlink)),
        ("pipe", Some(EntryKind::Other)),
        ("odd", None),
        ("file", Some(EntryKind::File)),
    ] {
        walk.visit(
            false,
            Some(DirEntry {
                path: root.join(name.as_bytes()),
                name: name.as_bytes().to_vec(),
                hidden: false,
                kind,
                facts: Some(facts),
            }),
        );
    }
    walk.visit(false, None);
    walk.finish_directory();
    assert!(walk.next_directory(false).is_none());
    let (buckets, stats) = walk.finish();
    assert!(buckets.is_empty());
    assert_eq!(stats.scanned_files, 1);
}

#[test]
fn subdirectories_are_walked_in_natural_order() {
    let root = FilePath::from_text("/root");
    let mut walk = Walk::new(&root, true, Platform::Linux);
    assert!(walk.next_directory(false).is_some());
    for name in ["d10", "d2", "B1"] {
        walk.visit(
            false,
            Some(DirEntry {
                path: root.join(name.as_bytes()),
                name: name.as_bytes().to_vec(),
                hidden: false,
                kind: Some(EntryKind::Directory),
                facts: None,
            }),
        );
    }
    walk.finish_directory();
    let mut order = Vec::new();
    while let Some(dir) = walk.next_directory(false) {
        order.push(dir.display(Platform::Linux));
    }
    assert_eq!(order, vec!["/root/B1", "/root/d2", "/root/d10"]);
}

#[test]
fn bucket_priorities() {
    assert_eq!(
        candidate_bucket_priority(&candidates("a", 2, 1000)),
        BucketPriority {
            class: 0,
            len: 2,
            read_bytes: 2000,
            duplicate_bytes: 1000,
            size: 1000,
        }
    );
    let class = |count: usize, size: u64| candidate_bucket_priority(&candidates("x", count, size)).class;
    assert_eq!(class(2, 262144), 0);
    assert_eq!(class(3, 262145), 1);
    assert_eq!(class(3, 64 * 1024 * 1024), 1);
    assert_eq!(class(2, 262145), 2);
    assert_eq!(class(2, 512 * 1024 * 1024), 2);
    assert_eq!(class(9, 512 * 1024 * 1024 + 1), 3);
    assert_eq!(class(0, 1), 0);
    assert_eq!(candidate_bucket_read_bytes(&candidates("x", 3, u64::MAX)), u64::MAX);
    assert_eq!(duplicate_candidate_bytes(&candidates("x", 3, 5)), 10);
    assert_eq!(saturating_product(u64::MAX, 2), u64::MAX);
    assert_eq!(saturating_product(6, 7), 42);
    assert_eq!(
        compare_candidate_buckets(&candidates("a", 3, 10), &candidates("b", 2, 10)),
        Order::Less
    );
}

#[test]
fn groups_are_ordered_by_size_then_gain_then_place() {
    let big = duplicate_group(1, 100, &["b", "c"]);
    let small = duplicate_group(2, 10, &["a", "d", "e"]);
    assert_eq!(compare_groups(&big, &small), Order::Less);
    assert_eq!(compare_groups(&small, &big), Order::Greater);
    let other = duplicate_group(3, 100, &["a", "c"]);
    assert_eq!(compare_groups(&other, &big), Order::Less);
    assert_eq!(compare_groups(&big, &big), Order::Equal);
}

#[test]
fn content_hashes_are_blake3() {
    let mut hasher = ContentHasher::new();
    hasher.feed(b"hello ");
    hasher.feed(b"world");
    assert_eq!(
        hasher.digest().bytes,
        *blake3::hash(b"hello world").as_bytes()
    );
    let digest = partial_content_fingerprint(3, b"abc", b"");
    let mut input = 3u64.to_le_bytes().to_vec();
    input.extend_from_slice(b"abc");
    assert_eq!(digest.bytes, *blake3::hash(&input).as_bytes());
}

#[test]
fn quick_look_reads_both_ends() {
    let chunk = PARTIAL_CHUNK_SIZE as u64;
    assert_eq!(partial_reads(0), (0, None));
    assert_eq!(partial_reads(chunk), (PARTIAL_CHUNK_SIZE, None));
    assert_eq!(partial_reads(chunk + 1), (PARTIAL_CHUNK_SIZE, Some(1)));
}

#[test]
fn cache_tells_files_and_versions_apart() {
    let key = |ino: u64, secs: i64| DuplicateHashCacheKey {
        identity: FileIdentity::Unix { dev: 1, ino },
        size: 4,
        modified: Some(Timestamp { secs, nanos: 0 }),
        changed: None,
    };
    let digest = |content: &[u8]| {
        let mut hasher = ContentHasher::new();
        hasher.feed(content);
        hasher.digest()
    };
    let mut cache = DuplicateHashCache::new();
    assert!(cache.get(&key(1, 1)).is_none());
    cache.insert(key(1, 1), digest(b"a"));
    assert!(cache.get(&key(1, 2)).is_none());
    assert!(cache.get(&key(2, 1)).is_none());
    cache.insert(key(1, 1), digest(b"b"));
    assert_eq!(cache.get(&key(1, 1)).unwrap().bytes, digest(b"b").bytes);
    let by_path = |path: &str| DuplicateHashCacheKey {
        identity: FileIdentity::Path(FilePath::from_text(path)),
        size: 4,
        modified: None,
        changed: None,
    };
    cache.insert(by_path("a//b"), digest(b"c"));
    assert_eq!(
        cache.get(&by_path("a/b/")).unwrap().bytes,
        digest(b"c").bytes
    );
    assert!(cache.get(&by_path("a/c")).is_none());
}

#[test]
fn batches_wait_for_time_or_number() {
    let stats = DuplicateScanStats::default();
    let mut emitter = DuplicateBatchEmitter::new();
    let first = emitter.push(duplicate_group(1, 1, &["a", "b"]), stats, 0);
    let late = DUPLICATE_BATCH_MAX_LATENCY;
    let first_at_once = first.is_some();
    if !first_at_once {
        assert_eq!(emitter.flush(stats, 0).unwrap().groups.len(), 1);
    }
    assert!(emitter
        .push(duplicate_group(2, 1, &["a", "b"]), stats, late - 1)
        .is_none());
    let batch = emitter
        .push(duplicate_group(3, 1, &["a", "b"]), stats, late)
        .unwrap();
    assert_eq!(batch.groups.len(), 2);
    assert!(emitter.flush(stats, late).is_none());
    for id in 0..127 {
        assert!(emitter
            .push(duplicate_group(id, 1, &["a", "b"]), stats, late)
            .is_none());
    }
    let full = emitter
        .push(duplicate_group(127, 1, &["a", "b"]), stats, late)
        .unwrap();
    assert_eq!(full.groups.len(), 128);
}

#[test]
fn workers_breathe() {
    assert_eq!(breathe_after_node(1), Breath::NoPause);
    assert_eq!(breathe_after_node(512), Breath::Yield);
    assert_eq!(breathe_after_node(16384), Breath::Sleep);
    assert_eq!(breathe_after_hash_chunk(16), Breath::Yield);
    assert_eq!(breathe_after_hash_chunk(128), Breath::Sleep);
    assert_eq!(breathe_after_hash_chunk(17), Breath::NoPause);
}

#[test]
fn change_times_are_counted_from_the_epoch() {
    assert_eq!(
        metadata_changed_time(5, 7),
        Some(Timestamp { secs: 5, nanos: 7 })
    );
    assert_eq!(
        metadata_changed_time(5, 1_000_000_007),
        Some(Timestamp { secs: 6, nanos: 7 })
    );
    assert_eq!(metadata_changed_time(-1, 0), None);
    assert_eq!(metadata_changed_time(0, -1), None);
}

#[test]
fn phases_have_labels() {
    assert_eq!(DuplicateScanPhase::Walking.label(), "walking");
    assert_eq!(DuplicateScanPhase::SizeGrouping.label(), "grouping");
    assert_eq!(DuplicateScanPhase::ContentChecking.label(), "checking");
    assert_eq!(DuplicateScanPhase::Complete.label(), "complete");
}

#[test]
fn natural_order_reads_numbers() {
    assert_eq!(natural_compare("a2", "a10"), Order::Less);
    assert_eq!(natural_compare("a10", "a9"), Order::Greater);
    assert_eq!(natural_compare("a", "b"), Order::Less);
    assert_eq!(natural_compare("x1y", "x1y"), Order::Equal);
}
