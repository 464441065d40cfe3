use rustsync::details::{details_lines, shown_time, split_nanos};
use rustsync::scanner::{DiffReason, FileDiff};

fn path(s: &str) -> Vec<String> {
    s.split('/').map(|c| c.to_string()).collect()
}

#[test]
fn details_of_a_new_file() {
    let d = FileDiff { rel_path: path("docs/a b/readme.md"), size: 1536, modified: Some(0), reason: DiffReason::Missing };
    let lines = details_lines(&d, Some("2024-01-02 03:04:05".to_string()), None, None, None);
    assert_eq!(lines.len(), 3);
    assert_eq!(lines[0], "File: docs/a b/readme.md  (1.5 KB)");
    assert_eq!(lines[1], "Created: 2024-01-02 03:04:05  Modified: N/A");
    assert_eq!(lines[2], "Status: New file (not in destination)");
}

#[test]
fn details_of_a_modified_file() {
    let src = 1_700_000_000_000_000_000i128;
    let dst = 1_600_000_000_000_000_000i128;
    let d = FileDiff { rel_path: path("x"), size: 0, modified: Some(src), reason: DiffReason::Newer { source_mod: src, dest_mod: dst } };
    let s = shown_time(src).unwrap();
    let t = shown_time(dst).unwrap();
    let lines = details_lines(&d, None, None, Some(s.clone()), Some(t.clone()));
    assert_eq!(lines[0], "File: x  (0.0 B)");
    assert_eq!(lines[1], "Created: N/A  Modified: N/A");
    assert_eq!(lines[2], format!("Status: Modified (source: {s}, dest: {t})"));
    assert_eq!(s.len(), 19);
    assert_ne!(s, t);
    let lines = details_lines(&d, None, None, Some("S".to_string()), None);
    assert_eq!(lines[2], "Status: Modified (source: S, dest: N/A)");
}

#[test]
fn shown_time_out_of_range() {
    assert!(shown_time(i128::MAX).is_none());
    assert!(shown_time(i128::MIN).is_none());
    assert!(shown_time(0).is_some());
    assert!(shown_time(-1).is_some());
}

#[test]
fn splitting_nanoseconds() {
    assert_eq!(split_nanos(0), Some((0, 0)));
    assert_eq!(split_nanos(1_500_000_000), Some((1, 500_000_000)));
    assert_eq!(split_nanos(-1), Some((-1, 999_999_999)));
    assert_eq!(split_nanos(-1_000_000_000), Some((-1, 0)));
    assert_eq!(split_nanos(-1_000_000_001), Some((-2, 999_999_999)));
    assert_eq!(split_nanos(i128::MAX), None);
    assert_eq!(split_nanos(i128::MIN), None);
}

#[test]
fn shown_time_has_the_date_form() {
    for n in [0i128, -1, 1_700_000_000_123_456_789, -5_000_000_000_000_000_000] {
        let s = shown_time(n).unwrap();
        let b: Vec<char> = s.chars().collect();
        let k = b.len();
        assert!(k >= 19);
        assert_eq!((b[k - 15], b[k - 12], b[k - 9], b[k - 6], b[k - 3]), ('-', '-', ' ', ':', ':'));
    }
}
