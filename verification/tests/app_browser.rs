use rustsync::app::{App, ConfirmButton, CopyEvent, CopyStatus, DialogState, FileAction, Key, KeyOutcome, PreviewAction};
use rustsync::scanner::{DiffReason, FileDiff};

fn path(s: &str) -> Vec<String> {
    s.split('/').map(|c| c.to_string()).collect()
}

fn missing(s: &str, size: u64) -> FileDiff {
    FileDiff { rel_path: path(s), size, modified: Some(0), reason: DiffReason::Missing }
}

fn newer(s: &str, size: u64) -> FileDiff {
    FileDiff { rel_path: path(s), size, modified: Some(5), reason: DiffReason::Newer { source_mod: 5, dest_mod: 1 } }
}

fn sample() -> App {
    // rows: d, d/a, d/b, z
    App::new(vec![missing("d/a", 10), newer("d/b", 20), missing("z", 5)])
}

#[test]
fn new_selects_first_row() {
    let app = sample();
    assert_eq!(app.selected_row(), Some(0));
    assert_eq!(app.row_count(), 4);
    assert!(app.show_preview());
    assert!(app.marked().is_empty());
    assert!(matches!(app.dialog(), DialogState::Closed));
    let empty = App::new(vec![]);
    assert_eq!(empty.selected_row(), None);
    assert_eq!(empty.row_count(), 0);
}

#[test]
fn moving_stays_within_rows() {
    let mut app = sample();
    assert_eq!(app.handle_key(Key::Up, None), KeyOutcome::Continue);
    assert_eq!(app.selected_row(), Some(0));
    app.handle_key(Key::Down, None);
    app.handle_key(Key::Char('j'), None);
    assert_eq!(app.selected_row(), Some(2));
    app.handle_key(Key::Down, None);
    app.handle_key(Key::Down, None);
    assert_eq!(app.selected_row(), Some(3));
    app.handle_key(Key::Char('k'), None);
    assert_eq!(app.selected_row(), Some(2));
    app.handle_key(Key::Home, None);
    assert_eq!(app.selected_row(), Some(0));
    app.handle_key(Key::End, None);
    assert_eq!(app.selected_row(), Some(3));
}

#[test]
fn paging_uses_terminal_height_less_eight() {
    let mut app = sample();
    app.handle_key(Key::PageDown, Some(10)); // page of 2
    assert_eq!(app.selected_row(), Some(2));
    app.handle_key(Key::PageDown, Some(10));
    assert_eq!(app.selected_row(), Some(3));
    app.handle_key(Key::PageUp, Some(10));
    assert_eq!(app.selected_row(), Some(1));
    app.handle_key(Key::PageUp, None); // page of 16
    assert_eq!(app.selected_row(), Some(0));
    app.handle_key(Key::PageDown, Some(3)); // page of 0
    assert_eq!(app.selected_row(), Some(0));
    app.handle_key(Key::PageDown, None);
    assert_eq!(app.selected_row(), Some(3));
}

#[test]
fn quit_keys() {
    let mut app = sample();
    assert_eq!(app.handle_key(Key::Char('q'), None), KeyOutcome::Quit);
    assert_eq!(app.handle_key(Key::Esc, None), KeyOutcome::Quit);
    assert_eq!(app.handle_key(Key::Char('x'), None), KeyOutcome::Continue);
}

#[test]
fn enter_collapses_and_expands_a_directory() {
    let mut app = sample();
    app.handle_key(Key::Enter, None);
    assert_eq!(app.row_count(), 2);
    app.handle_key(Key::Enter, None);
    assert_eq!(app.row_count(), 4);
    app.handle_key(Key::Down, None);
    app.handle_key(Key::Enter, None); // a file row: nothing
    assert_eq!(app.row_count(), 4);
}

#[test]
fn space_marks_files_and_directories() {
    let mut app = sample();
    app.handle_key(Key::Down, None); // d/a
    app.handle_key(Key::Char(' '), None);
    assert!(app.marked().contains(&path("d/a")));
    app.handle_key(Key::Char(' '), None);
    assert!(app.marked().is_empty());
    // partly marked directory: all get marked
    app.handle_key(Key::Char(' '), None);
    app.handle_key(Key::Home, None);
    app.handle_key(Key::Char(' '), None);
    assert_eq!(app.marked().len(), 2);
    assert!(app.marked().contains(&path("d/b")));
    // fully marked directory: all get unmarked
    app.handle_key(Key::Char(' '), None);
    assert!(app.marked().is_empty());
}

#[test]
fn mark_all_and_clear() {
    let mut app = sample();
    app.handle_key(Key::Char('a'), None);
    assert_eq!(app.marked().len(), 3);
    assert_eq!(app.marked().get(0), &path("d/a"));
    assert_eq!(app.marked().get(2), &path("z"));
    app.handle_key(Key::Char('u'), None);
    assert!(app.marked().is_empty());
}

#[test]
fn rows_show_counts_sizes_and_marks() {
    let mut app = sample();
    app.handle_key(Key::Down, None);
    app.handle_key(Key::Char(' '), None);
    let rows = app.rows();
    assert_eq!(rows.len(), 4);
    assert_eq!(rows[0].name, "d");
    assert!(rows[0].is_dir && rows[0].expanded);
    assert_eq!(rows[0].file_count, 2);
    assert_eq!(rows[0].total_size, 30);
    assert!(!rows[0].marked);
    assert_eq!(rows[1].depth, 1);
    assert!(rows[1].marked);
    assert!(matches!(rows[1].reason, Some(DiffReason::Missing)));
    assert!(matches!(rows[2].reason, Some(DiffReason::Newer { .. })));
    app.handle_key(Key::Down, None);
    app.handle_key(Key::Char(' '), None);
    assert!(app.rows()[0].marked);
}

#[test]
fn status_summary_counts() {
    let mut app = sample();
    app.handle_key(Key::Char('a'), None);
    let s = app.status_summary();
    assert_eq!(s.missing, 2);
    assert_eq!(s.newer, 1);
    assert_eq!(s.missing + s.newer, app.diffs().len());
    assert_eq!(s.total_size, 35);
    assert_eq!(s.selected_count, 3);
    assert_eq!(s.selected_size, 35);
    assert_eq!(app.selection_size(), 35);
}

#[test]
fn copy_dialog_needs_marks_and_can_be_cancelled() {
    let mut app = sample();
    app.handle_key(Key::Char('c'), None);
    assert!(matches!(app.dialog(), DialogState::Closed));
    app.handle_key(Key::Char('a'), None);
    app.handle_key(Key::Char('c'), None);
    match app.dialog() {
        DialogState::ConfirmCopy { scroll, button } => {
            assert_eq!(*scroll, Some(0));
            assert_eq!(*button, ConfirmButton::Cancel);
        }
        _ => panic!("expected the confirmation"),
    }
    app.handle_key(Key::Down, None);
    app.handle_key(Key::Down, None);
    app.handle_key(Key::Down, None);
    match app.dialog() {
        DialogState::ConfirmCopy { scroll, .. } => assert_eq!(*scroll, Some(2)),
        _ => panic!(),
    }
    app.handle_key(Key::Up, None);
    match app.dialog() {
        DialogState::ConfirmCopy { scroll, .. } => assert_eq!(*scroll, Some(1)),
        _ => panic!(),
    }
    // Enter on Cancel closes
    app.handle_key(Key::Enter, None);
    assert!(matches!(app.dialog(), DialogState::Closed));
    app.handle_key(Key::Char('c'), None);
    app.handle_key(Key::Esc, None);
    assert!(matches!(app.dialog(), DialogState::Closed));
    // in the dialog, q does not quit
    app.handle_key(Key::Char('c'), None);
    assert_eq!(app.handle_key(Key::Char('q'), None), KeyOutcome::Continue);
}

#[test]
fn copy_run_progress() {
    let mut app = sample();
    app.handle_key(Key::Char('a'), None);
    app.handle_key(Key::Char('c'), None);
    app.handle_key(Key::Tab, None);
    app.handle_key(Key::Enter, None);
    match app.dialog() {
        DialogState::Copying { items, total_bytes, copied_bytes, current, .. } => {
            assert_eq!(items.len(), 3);
            assert_eq!(*total_bytes, 35);
            assert_eq!(*copied_bytes, 0);
            assert_eq!(*current, 0);
            assert!(items.iter().all(|(_, s)| matches!(s, CopyStatus::Pending)));
        }
        _ => panic!("expected a copy run"),
    }
    assert!(app.copy_in_progress());
    let p = app.begin_current_file();
    assert_eq!(p, path("d/a"));
    assert!(app.can_record(10));
    app.record_written(10);
    app.current_file_done();
    let p = app.begin_current_file();
    assert_eq!(p, path("d/b"));
    match app.dialog() {
        DialogState::Copying { file_total, file_bytes, copied_bytes, current, scroll, .. } => {
            assert_eq!(*file_total, 20);
            assert_eq!(*file_bytes, 0);
            assert_eq!(*copied_bytes, 10);
            assert_eq!(*current, 1);
            assert_eq!(*scroll, Some(1));
        }
        _ => panic!(),
    }
    app.current_file_failed("Permission denied".to_string());
    app.cancel_copy();
    assert!(app.copy_complete());
    match app.dialog() {
        DialogState::Copying { items, current, .. } => {
            assert_eq!(*current, 3);
            assert!(matches!(items[0].1, CopyStatus::Done));
            assert!(matches!(&items[1].1, CopyStatus::Failed(m) if m == "Permission denied"));
            assert!(matches!(&items[2].1, CopyStatus::Failed(m) if m == "Cancelled"));
            assert!(items.iter().all(|(_, s)| !matches!(s, CopyStatus::Pending)));
        }
        _ => panic!(),
    }
    // keys do nothing during a copy run
    assert_eq!(app.handle_key(Key::Char('q'), None), KeyOutcome::Continue);
    app.dismiss_copy();
    assert!(matches!(app.dialog(), DialogState::Closed));
}

#[test]
fn preview_requests() {
    let mut app = sample();
    // row 0 is a directory: nothing to preview
    assert!(matches!(app.ensure_preview(), PreviewAction::Clear));
    app.handle_key(Key::Down, None);
    match app.ensure_preview() {
        PreviewAction::Load(p) => assert_eq!(p, path("d/a")),
        _ => panic!("expected a load"),
    }
    assert!(matches!(app.ensure_preview(), PreviewAction::Keep));
    app.preview_loaded(path("d/a"));
    assert_eq!(app.preview_cached(), &Some(path("d/a")));
    assert!(matches!(app.ensure_preview(), PreviewAction::Keep));
    app.handle_key(Key::Char('p'), None);
    assert!(!app.show_preview());
    assert_eq!(app.preview_cached(), &None);
    assert!(matches!(app.ensure_preview(), PreviewAction::Keep));
    app.handle_key(Key::Char('p'), None);
    assert!(app.show_preview());
}

#[test]
fn selected_diff_follows_the_row() {
    let mut app = sample();
    assert!(app.selected_diff().is_none());
    app.handle_key(Key::End, None);
    assert_eq!(app.selected_diff().unwrap().rel_path, path("z"));
    app.set_selected_row(Some(99));
    assert!(app.selected_diff().is_none());
}

#[test]
fn collect_file_paths_in_row_order() {
    let app = App::new(vec![missing("d/x/2", 1), missing("d/x/1", 1), missing("d/y", 1)]);
    let tree_rows = app.rows();
    assert_eq!(tree_rows[0].name, "d");
    let mut fresh = rustsync::tree::build_tree(&[missing("d/x/2", 1), missing("d/x/1", 1), missing("d/y", 1)]);
    fresh.toggle_expand(&path("d/x"));
    let d = &fresh.children[0];
    assert_eq!(app.collect_file_paths(d), vec![path("d/x/1"), path("d/x/2"), path("d/y")]);
}

#[test]
fn preview_placeholders() {
    let mut app = sample();
    // row 0 is a directory
    assert_eq!(app.preview_placeholder(false), "No preview available");
    app.handle_key(Key::Down, None); // d/a, missing
    assert_eq!(app.preview_placeholder(false), "New file — does not exist in destination");
    assert_eq!(app.preview_placeholder(true), "No preview available");
    app.handle_key(Key::Down, None); // d/b, newer
    assert_eq!(app.preview_placeholder(false), "No preview available");
}

#[test]
fn mark_all_twice_changes_nothing() {
    let mut app = sample();
    app.handle_key(Key::Char('a'), None);
    let once: Vec<Vec<String>> = (0..app.marked().len()).map(|i| app.marked().get(i).clone()).collect();
    app.handle_key(Key::Char('a'), None);
    let twice: Vec<Vec<String>> = (0..app.marked().len()).map(|i| app.marked().get(i).clone()).collect();
    assert_eq!(once, twice);
    assert_eq!(once.len(), 3);
}

#[test]
fn status_and_title_texts() {
    let mut app = sample();
    let (counts, total, sel) = app.status_texts();
    assert_eq!(counts, " 2 new, 1 modified");
    assert_eq!(total, "Total: 35.0 B");
    assert_eq!(sel, "0 sel");
    assert_eq!(app.browser_title("src", "dst"), " src → dst (3 files) ");
    app.handle_key(Key::Char('a'), None);
    let (_, _, sel) = app.status_texts();
    assert_eq!(sel, "3 sel (35.0 B)");
    assert_eq!(app.confirm_title(), " Copy 3 files (35.0 B)? ");
    app.handle_key(Key::Char('c'), None);
    app.handle_key(Key::Tab, None);
    app.handle_key(Key::Enter, None);
    assert_eq!(app.copy_title(), " Copying... (ESC to cancel) ");
    app.cancel_copy();
    assert_eq!(app.copy_title(), " Copy complete (press any key) ");
}

fn marks(app: &App) -> Vec<Vec<String>> {
    (0..app.marked().len()).map(|i| app.marked().get(i).clone()).collect()
}

#[test]
fn toggle_select_and_select_all_directly() {
    let mut app = sample();
    app.handle_key(Key::Down, None); // d/a
    app.toggle_select();
    assert_eq!(marks(&app), vec![path("d/a")]);
    app.toggle_select();
    assert!(marks(&app).is_empty());
    app.select_all();
    let once = marks(&app);
    app.select_all();
    assert_eq!(marks(&app), once);
    assert_eq!(once, vec![path("d/a"), path("d/b"), path("z")]);
}

#[test]
fn copy_steps_by_event() {
    let mut app = sample();
    app.handle_key(Key::Char('a'), None);
    app.handle_key(Key::Char('c'), None);
    app.handle_key(Key::Tab, None);
    app.handle_key(Key::Enter, None);
    app.begin_current_file();
    assert_eq!(app.copy_step(CopyEvent::Written(4)), FileAction::KeepOpen);
    assert_eq!(app.copy_step(CopyEvent::EndOfFile), FileAction::Close);
    app.begin_current_file();
    assert_eq!(app.copy_step(CopyEvent::OpenFailed("no".to_string())), FileAction::Close);
    assert_eq!(app.copy_step(CopyEvent::Escape), FileAction::Close);
    match app.dialog() {
        DialogState::Copying { items, copied_bytes, current, .. } => {
            assert_eq!(*copied_bytes, 4);
            assert_eq!(*current, 3);
            assert!(matches!(items[0].1, CopyStatus::Done));
            assert!(matches!(&items[1].1, CopyStatus::Failed(m) if m == "no"));
            assert!(matches!(&items[2].1, CopyStatus::Failed(m) if m == "Cancelled"));
        }
        _ => panic!("expected a copy run"),
    }
}
