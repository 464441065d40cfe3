use rustsync::scanner::{
    classify_entry, compare_dirs, needs_content_check, total_size, DestFile, DestIndex, DiffReason, FileDiff,
    SourceFile,
};

const SEC: i128 = 1_000_000_000;

fn path(s: &str) -> Vec<String> {
    s.split('/').map(|c| c.to_string()).collect()
}

fn src(s: &str, size: u64, modified: i128) -> SourceFile {
    SourceFile { rel_path: path(s), size, modified }
}

#[test]
fn content_is_checked_when_the_source_is_newer() {
    assert!(!needs_content_check(10 * SEC, 10 * SEC));
    assert!(needs_content_check(10 * SEC + 1, 10 * SEC));
    assert!(needs_content_check(11 * SEC, 10 * SEC));
    assert!(needs_content_check(12 * SEC, 10 * SEC));
    assert!(!needs_content_check(5 * SEC, 10 * SEC));
    assert!(!needs_content_check(i128::MIN, i128::MAX));
    assert!(needs_content_check(i128::MAX, i128::MIN));
}

#[test]
fn missing_file_is_a_difference() {
    let d = classify_entry(&src("a/b", 3, 7), None, (None, None)).unwrap();
    assert_eq!(d.rel_path, path("a/b"));
    assert_eq!(d.size, 3);
    assert_eq!(d.modified, Some(7));
    assert!(matches!(d.reason, DiffReason::Missing));
}

#[test]
fn older_or_same_time_files_are_skipped() {
    assert!(classify_entry(&src("a", 1, 10 * SEC), Some(11 * SEC), (Some(1), Some(2))).is_none());
    assert!(classify_entry(&src("a", 1, 10 * SEC), Some(10 * SEC), (Some(1), Some(2))).is_none());
}

#[test]
fn a_second_newer_with_different_content_is_newer() {
    let d = classify_entry(&src("a", 4, 11 * SEC), Some(10 * SEC), (Some(1), Some(2))).unwrap();
    assert_eq!(d.size, 4);
    assert_eq!(d.modified, Some(11 * SEC));
    assert!(matches!(d.reason, DiffReason::Newer { source_mod, dest_mod } if source_mod == 11 * SEC && dest_mod == 10 * SEC));
}

#[test]
fn newer_with_same_content_is_skipped() {
    assert!(classify_entry(&src("a", 1, 20 * SEC), Some(10 * SEC), (Some(42), Some(42))).is_none());
    assert!(classify_entry(&src("a", 1, 20 * SEC), Some(10 * SEC), (None, None)).is_none());
}

#[test]
fn newer_with_different_content_is_newer() {
    let d = classify_entry(&src("a", 1, 20 * SEC), Some(10 * SEC), (Some(1), Some(2))).unwrap();
    match d.reason {
        DiffReason::Newer { source_mod, dest_mod } => {
            assert_eq!(source_mod, 20 * SEC);
            assert_eq!(dest_mod, 10 * SEC);
        }
        _ => panic!("expected newer"),
    }
    let d = classify_entry(&src("a", 1, 20 * SEC), Some(10 * SEC), (Some(1), None)).unwrap();
    assert!(matches!(d.reason, DiffReason::Newer { .. }));
}

#[test]
fn destination_index_finds_every_path() {
    let files = vec![
        DestFile { rel_path: path("b"), modified: 3 },
        DestFile { rel_path: path("a/b"), modified: 2 },
        DestFile { rel_path: path("a-b"), modified: 4 },
        DestFile { rel_path: path("a"), modified: 1 },
    ];
    let ix = DestIndex::from_files(files);
    assert_eq!(ix.lookup(&path("a")), Some(1));
    assert_eq!(ix.lookup(&path("a/b")), Some(2));
    assert_eq!(ix.lookup(&path("b")), Some(3));
    assert_eq!(ix.lookup(&path("a-b")), Some(4));
    assert_eq!(ix.lookup(&path("c")), None);
    assert_eq!(ix.lookup(&path("a/c")), None);
    assert_eq!(ix.lookup(&vec![]), None);
}

#[test]
fn destination_index_keeps_the_later_of_two_entries() {
    let files = vec![
        DestFile { rel_path: path("x/y"), modified: 1 },
        DestFile { rel_path: path("z"), modified: 5 },
        DestFile { rel_path: path("x/y"), modified: 2 },
    ];
    let ix = DestIndex::from_files(files);
    assert_eq!(ix.lookup(&path("x/y")), Some(2));
    assert_eq!(ix.lookup(&path("z")), Some(5));
}

#[test]
fn destination_index_of_many_files() {
    let mut files = Vec::new();
    for k in (0..500).rev() {
        files.push(DestFile { rel_path: path(&format!("d{}/f{}", k % 7, k)), modified: k as i128 });
    }
    let ix = DestIndex::from_files(files);
    for k in 0..500 {
        assert_eq!(ix.lookup(&path(&format!("d{}/f{}", k % 7, k))), Some(k as i128));
    }
    assert_eq!(ix.lookup(&path("d0/f1")), None);
}

#[test]
fn compare_dirs_keeps_source_order() {
    let dest = DestIndex::from_files(vec![
        DestFile { rel_path: path("same"), modified: 10 * SEC },
        DestFile { rel_path: path("changed"), modified: 10 * SEC },
    ]);
    let files = vec![src("new", 5, 0), src("same", 6, 20 * SEC), src("changed", 7, 20 * SEC), src("old", 8, 0)];
    let hashes = vec![(None, None), (Some(1), Some(1)), (Some(1), Some(2)), (None, None)];
    let diffs = compare_dirs(&files, &dest, &hashes, &[]);
    assert_eq!(diffs.len(), 3);
    assert_eq!(diffs[0].rel_path, path("new"));
    assert!(matches!(diffs[0].reason, DiffReason::Missing));
    assert_eq!(diffs[1].rel_path, path("changed"));
    assert!(matches!(diffs[1].reason, DiffReason::Newer { .. }));
    assert_eq!(diffs[2].rel_path, path("old"));
    assert!(matches!(diffs[2].reason, DiffReason::Missing));
}

#[test]
fn total_size_adds_up_or_reports_overflow() {
    let d = |s: &str, size: u64| FileDiff { rel_path: path(s), size, modified: None, reason: DiffReason::Missing };
    assert_eq!(total_size(&vec![]), Some(0));
    assert_eq!(total_size(&vec![d("a", 3), d("b", 4)]), Some(7));
    assert_eq!(total_size(&vec![d("a", u64::MAX), d("b", 0)]), Some(u64::MAX));
    assert_eq!(total_size(&vec![d("a", u64::MAX), d("b", 1)]), None);
}

#[test]
fn compare_dirs_leaves_out_excluded_directories() {
    let dest = DestIndex::from_files(vec![]);
    let files = vec![
        src("keep/a.txt", 1, 0),
        src("target/debug/x", 2, 0),
        src("deep/node_modules/y", 3, 0),
        src("notes.tmp", 4, 0),
        src("targets/z", 5, 0),
        src("logs/x.tmp/inner", 6, 0),
    ];
    let hashes = vec![(None, None); 6];
    let exclude = vec!["target".to_string(), "node_modules".to_string(), "*.tmp".to_string()];
    let diffs = compare_dirs(&files, &dest, &hashes, &exclude);
    let paths: Vec<Vec<String>> = diffs.iter().map(|d| d.rel_path.clone()).collect();
    // patterns exclude directories: a file whose own name matches is still listed
    assert_eq!(paths, vec![path("keep/a.txt"), path("notes.tmp"), path("targets/z")]);
}
