//! The browser's state and its decisions: moving through the rows, marking
//! files, the copy confirmation and the progress of a copy. Drawing and file
//! work happen outside; they ask this state what to show and report back.
use vstd::prelude::*;
use vstd::string::StringExecFns;

use crate::numfmt::{format_size, push_char, push_decimal, size_text, decimal};
use crate::pathset::{lemma_sorted_distinct, strictly_sorted, PathSet};
use crate::scanner::{clone_path, lemma_sum_sizes_prefix, sum_sizes, DiffModel, DiffReason, FileDiff};
use crate::text::{compare_paths, path_lt, path_view, Order};
use crate::tree::{
    build_tree, built, file_total, flattened, lemma_built_totals, lemma_rows_bounded,
    lemma_toggled_totals, lemma_toggled_wf, rows_view, size_total, toggled, NodeModel, TreeNode,
};

verus! {

/// A relative path as component names.
pub type PathModel = Seq<Seq<char>>;

/// How the copy of one file went.
#[derive(Clone, Debug)]
pub enum CopyStatus {
    Pending,
    Done,
    Failed(String),
}

/// The focused button of the copy confirmation.
#[derive(Clone, Copy, Debug, PartialEq, Eq, Structural)]
pub enum ConfirmButton {
    Cancel,
    Copy,
}

/// The dialog over the browser, if any.
#[derive(Debug)]
pub enum DialogState {
    Closed,
    ConfirmCopy { scroll: Option<usize>, button: ConfirmButton },
    Copying {
        items: Vec<(Vec<String>, CopyStatus)>,
        total_bytes: u64,
        copied_bytes: u64,
        current: usize,
        scroll: Option<usize>,
        file_bytes: u64,
        file_total: u64,
    },
}

/// A key press, as the browser tells keys apart.
#[derive(Clone, Copy, Debug, PartialEq, Eq, Structural)]
pub enum Key {
    Char(char),
    Up,
    Down,
    Left,
    Right,
    Home,
    End,
    PageUp,
    PageDown,
    Enter,
    Esc,
    Tab,
    Other,
}

/// What the key loop does after a key.
#[derive(Clone, Copy, Debug, PartialEq, Eq, Structural)]
pub enum KeyOutcome {
    Continue,
    Quit,
}

/// What happened to the current file of a copy run.
#[derive(Debug)]
pub enum CopyEvent {
    /// The user asked to cancel the rest of the run.
    Escape,
    /// The source could not be opened or the destination not created.
    OpenFailed(String),
    /// Reading the source failed.
    ReadFailed(String),
    /// The source is read to its end.
    EndOfFile,
    /// `n` more bytes were read and written.
    Written(u64),
    /// Writing the destination failed.
    WriteFailed(String),
}

/// What the copy loop does with the open files after an event.
#[derive(Clone, Copy, Debug, PartialEq, Eq, Structural)]
pub enum FileAction {
    /// Go on with the same files.
    KeepOpen,
    /// Close them: the current file is settled, or the run is cancelled.
    Close,
}

/// What the preview pane has to do.
#[derive(Debug)]
pub enum PreviewAction {
    /// Nothing: the shown or loading preview is the right one, or previews are off.
    Keep,
    /// No file row is selected: drop the preview.
    Clear,
    /// Start loading the previews of the file at this relative path.
    Load(Vec<String>),
}

pub enum StatusView {
    Pending,
    Done,
    Failed(Seq<char>),
}

pub enum DialogView {
    Closed,
    Confirm { scroll: Option<usize>, button: ConfirmButton },
    Copying {
        items: Seq<(PathModel, StatusView)>,
        total_bytes: u64,
        copied_bytes: u64,
        current: usize,
        scroll: Option<usize>,
        file_bytes: u64,
        file_total: u64,
    },
}

/// What the browser state holds, as mathematical values.
pub struct AppView {
    /// The differences found, in scan order.
    pub diffs: Seq<DiffModel>,
    pub tree: NodeModel,
    /// The selected row of the browser.
    pub row: Option<usize>,
    pub show_preview: bool,
    /// The paths marked for copying, in path order.
    pub marked: Seq<PathModel>,
    pub dialog: DialogView,
    /// The path whose preview is shown.
    pub cached: Option<PathModel>,
    /// The path whose preview is loading.
    pub loading: Option<PathModel>,
}

pub open spec fn status_view(s: CopyStatus) -> StatusView {
    match s {
        CopyStatus::Pending => StatusView::Pending,
        CopyStatus::Done => StatusView::Done,
        CopyStatus::Failed(m) => StatusView::Failed(m@),
    }
}

pub open spec fn item_view(it: (Vec<String>, CopyStatus)) -> (PathModel, StatusView) {
    (path_view(it.0@), status_view(it.1))
}

pub open spec fn dialog_view(d: DialogState) -> DialogView {
    match d {
        DialogState::Closed => DialogView::Closed,
        DialogState::ConfirmCopy { scroll, button } => DialogView::Confirm { scroll, button },
        DialogState::Copying {
            items,
            total_bytes,
            copied_bytes,
            current,
            scroll,
            file_bytes,
            file_total,
        } => DialogView::Copying {
            items: items@.map_values(|it: (Vec<String>, CopyStatus)| item_view(it)),
            total_bytes,
            copied_bytes,
            current,
            scroll,
            file_bytes,
            file_total,
        },
    }
}

pub open spec fn opt_path(p: Option<Vec<String>>) -> Option<PathModel> {
    match p {
        Some(v) => Some(path_view(v@)),
        None => None,
    }
}

/// The browser state.
pub struct App {
    diffs: Vec<FileDiff>,
    tree: TreeNode,
    selected_row: Option<usize>,
    show_preview: bool,
    selected: PathSet,
    dialog: DialogState,
    preview_cached: Option<Vec<String>>,
    preview_loading: Option<Vec<String>>,
}

impl View for App {
    type V = AppView;

    closed spec fn view(&self) -> AppView {
        AppView {
            diffs: self.diffs@.map_values(|d: FileDiff| d@),
            tree: self.tree@,
            row: self.selected_row,
            show_preview: self.show_preview,
            marked: self.selected@,
            dialog: dialog_view(self.dialog),
            cached: opt_path(self.preview_cached),
            loading: opt_path(self.preview_loading),
        }
    }
}

// ---------------------------------------------------------------------------
// Sizes of marked paths

/// The size of the first difference at path `p`, 0 where there is none.
pub open spec fn size_of_path(ds: Seq<DiffModel>, p: PathModel) -> nat
    decreases ds.len(),
{
    if ds.len() == 0 {
        0
    } else if ds[0].rel_path == p {
        ds[0].size as nat
    } else {
        size_of_path(ds.drop_first(), p)
    }
}

/// The sizes of the paths `ps`, added up (see `size_of_path`).
pub open spec fn sizes_of(ps: Seq<PathModel>, ds: Seq<DiffModel>) -> nat
    decreases ps.len(),
{
    if ps.len() == 0 {
        0
    } else {
        sizes_of(ps.drop_last(), ds) + size_of_path(ds, ps.last())
    }
}

pub open spec fn distinct(ps: Seq<PathModel>) -> bool {
    forall|i: int, j: int| 0 <= i < ps.len() && 0 <= j < ps.len() && i != j ==> ps[i] != ps[j]
}

proof fn lemma_sum_sizes_first(ds: Seq<DiffModel>)
    requires
        ds.len() > 0,
    ensures
        sum_sizes(ds) == ds[0].size + sum_sizes(ds.drop_first()),
    decreases ds.len(),
{
    if ds.len() > 1 {
        lemma_sum_sizes_first(ds.drop_last());
        assert(ds.drop_last().drop_first() =~= ds.drop_first().drop_last());
        assert(ds.drop_last()[0] == ds[0]);
    } else {
        assert(ds.drop_first() =~= Seq::<DiffModel>::empty());
        assert(ds.drop_last() =~= Seq::<DiffModel>::empty());
    }
}

proof fn lemma_sizes_of_pointwise(ps: Seq<PathModel>, a: Seq<DiffModel>, b: Seq<DiffModel>)
    requires
        forall|i: int| 0 <= i < ps.len() ==> size_of_path(a, #[trigger] ps[i]) == size_of_path(b, ps[i]),
    ensures
        sizes_of(ps, a) == sizes_of(ps, b),
    decreases ps.len(),
{
    if ps.len() > 0 {
        lemma_sizes_of_pointwise(ps.drop_last(), a, b);
        assert(ps.last() == ps[ps.len() - 1]);
    }
}

proof fn lemma_sizes_of_remove(ps: Seq<PathModel>, j: int, ds: Seq<DiffModel>)
    requires
        0 <= j < ps.len(),
    ensures
        sizes_of(ps, ds) == size_of_path(ds, ps[j]) + sizes_of(ps.remove(j), ds),
    decreases ps.len(),
{
    if j == ps.len() - 1 {
        assert(ps.remove(j) =~= ps.drop_last());
    } else {
        lemma_sizes_of_remove(ps.drop_last(), j, ds);
        assert(ps.remove(j).drop_last() =~= ps.drop_last().remove(j));
        assert(ps.remove(j).last() == ps.last());
    }
}

proof fn lemma_sizes_of_empty(ps: Seq<PathModel>, ds: Seq<DiffModel>)
    requires
        ds.len() == 0,
    ensures
        sizes_of(ps, ds) == 0,
    decreases ps.len(),
{
    if ps.len() > 0 {
        lemma_sizes_of_empty(ps.drop_last(), ds);
    }
}

/// The sizes of distinct paths add up to no more than all differences.
pub proof fn lemma_sizes_of_bounded(ps: Seq<PathModel>, ds: Seq<DiffModel>)
    requires
        distinct(ps),
    ensures
        sizes_of(ps, ds) <= sum_sizes(ds),
    decreases ds.len(),
{
    if ds.len() == 0 {
        lemma_sizes_of_empty(ps, ds);
    } else {
        let d0 = ds[0];
        let rest = ds.drop_first();
        lemma_sum_sizes_first(ds);
        if ps.contains(d0.rel_path) {
            let j = choose|j: int| 0 <= j < ps.len() && ps[j] == d0.rel_path;
            lemma_sizes_of_remove(ps, j, ds);
            let qs = ps.remove(j);
            assert forall|i: int| 0 <= i < qs.len() implies size_of_path(ds, #[trigger] qs[i]) == size_of_path(rest, qs[i]) by {
                if i < j {
                    assert(qs[i] == ps[i]);
                } else {
                    assert(qs[i] == ps[i + 1]);
                }
            }
            lemma_sizes_of_pointwise(qs, ds, rest);
            assert(distinct(qs)) by {
                assert forall|a: int, b: int| 0 <= a < qs.len() && 0 <= b < qs.len() && a != b implies qs[a] != qs[b] by {
                    let a2 = if a < j { a } else { a + 1 };
                    let b2 = if b < j { b } else { b + 1 };
                    assert(qs[a] == ps[a2]);
                    assert(qs[b] == ps[b2]);
                }
            }
            lemma_sizes_of_bounded(qs, rest);
        } else {
            assert forall|i: int| 0 <= i < ps.len() implies size_of_path(ds, #[trigger] ps[i]) == size_of_path(rest, ps[i]) by {
                assert(ps[i] != d0.rel_path);
            }
            lemma_sizes_of_pointwise(ps, ds, rest);
            lemma_sizes_of_bounded(ps, rest);
        }
    }
}

proof fn lemma_sizes_of_prefix(ps: Seq<PathModel>, ds: Seq<DiffModel>, j: int)
    requires
        0 <= j <= ps.len(),
    ensures
        sizes_of(ps.take(j), ds) <= sizes_of(ps, ds),
    decreases ps.len(),
{
    if j < ps.len() {
        assert(ps.drop_last().take(j) =~= ps.take(j));
        lemma_sizes_of_prefix(ps.drop_last(), ds, j);
    } else {
        assert(ps.take(j) =~= ps);
    }
}

proof fn lemma_sorted_is_distinct(ps: Seq<PathModel>)
    requires
        strictly_sorted(ps),
    ensures
        distinct(ps),
{
    assert forall|i: int, j: int| 0 <= i < ps.len() && 0 <= j < ps.len() && i != j implies ps[i] != ps[j] by {
        lemma_sorted_distinct(ps, i, j);
    }
}

// ---------------------------------------------------------------------------
// Laws

/// Two lists in strict path order with the same paths are the same list.
pub proof fn lemma_sorted_unique(a: Seq<PathModel>, b: Seq<PathModel>)
    requires
        strictly_sorted(a),
        strictly_sorted(b),
        a.to_set() == b.to_set(),
    ensures
        a == b,
    decreases a.len(),
{
    if a.len() == 0 {
        if b.len() > 0 {
            assert(b.to_set().contains(b[0]));
        }
        assert(a =~= b);
    } else {
        assert(a.to_set().contains(a[0]));
        assert(b.len() > 0);
        assert(b.to_set().contains(b[0]));
        let i = choose|i: int| 0 <= i < a.len() && a[i] == b[0];
        let j = choose|j: int| 0 <= j < b.len() && b[j] == a[0];
        if i > 0 && j > 0 {
            assert(path_lt(a[0], a[i]));
            assert(path_lt(b[0], b[j]));
            crate::text::lemma_path_lt_asymmetric(a[0], b[0]);
        }
        assert(a[0] == b[0]) by {
            if i == 0 {
            } else {
                assert(j == 0);
            }
        }
        let a2 = a.drop_first();
        let b2 = b.drop_first();
        assert(strictly_sorted(a2));
        assert(strictly_sorted(b2));
        assert(a2.to_set() =~= b2.to_set()) by {
            assert forall|x| a2.to_set().contains(x) <==> b2.to_set().contains(x) by {
                if a2.contains(x) {
                    let k = choose|k: int| 0 <= k < a2.len() && a2[k] == x;
                    lemma_sorted_distinct(a, 0, k + 1);
                    assert(b.to_set().contains(x));
                    let l = choose|l: int| 0 <= l < b.len() && b[l] == x;
                    if l == 0 {
                        assert(false);
                    }
                    assert(b2[l - 1] == x);
                }
                if b2.contains(x) {
                    let k = choose|k: int| 0 <= k < b2.len() && b2[k] == x;
                    lemma_sorted_distinct(b, 0, k + 1);
                    assert(a.to_set().contains(x));
                    let l = choose|l: int| 0 <= l < a.len() && a[l] == x;
                    if l == 0 {
                        assert(false);
                    }
                    assert(a2[l - 1] == x);
                }
            }
        }
        lemma_sorted_unique(a2, b2);
        assert(a =~= seq![a[0]] + a2);
        assert(b =~= seq![b[0]] + b2);
    }
}

/// Space twice on a file row gives back the state it started from.
pub proof fn law_space_twice_on_file_restores(
    pre: AppView,
    mid: AppView,
    post: AppView,
    height: Option<u16>,
    out1: KeyOutcome,
    out2: KeyOutcome,
)
    requires
        pre.dialog == DialogView::Closed,
        strictly_sorted(pre.marked),
        key_step(pre, Key::Char(' '), height, mid, out1),
        key_step(mid, Key::Char(' '), height, post, out2),
        row_node(pre) matches Some(n) && !n.is_dir,
    ensures
        post == pre,
{
    let n = row_node(pre).unwrap();
    let p = n.rel_path;
    assert(row_node(mid) == row_node(pre));
    if pre.marked.contains(p) {
        assert(!mid.marked.to_set().contains(p));
        assert(post.marked.to_set() =~= pre.marked.to_set());
    } else {
        assert(mid.marked.to_set().contains(p));
        assert(mid.marked.contains(p));
        assert(post.marked.to_set() =~= pre.marked.to_set());
    }
    lemma_sorted_unique(post.marked, pre.marked);
}

/// Space on a directory row leaves its files all marked or all unmarked:
/// unmarked where all were marked before, marked otherwise.
pub proof fn law_space_on_directory_is_uniform(pre: AppView, post: AppView, height: Option<u16>, out: KeyOutcome)
    requires
        pre.dialog == DialogView::Closed,
        key_step(pre, Key::Char(' '), height, post, out),
        row_node(pre) matches Some(n) && n.is_dir,
    ensures
        ({
            let ps = file_paths(row_node(pre).unwrap());
            if all_marked(pre.marked, ps) {
                forall|i: int| 0 <= i < ps.len() ==> !post.marked.contains(#[trigger] ps[i])
            } else {
                forall|i: int| 0 <= i < ps.len() ==> post.marked.contains(#[trigger] ps[i])
            }
        }),
{
    let ps = file_paths(row_node(pre).unwrap());
    assert forall|i: int| 0 <= i < ps.len() implies (if all_marked(pre.marked, ps) {
        !post.marked.contains(#[trigger] ps[i])
    } else {
        post.marked.contains(ps[i])
    }) by {
        assert(ps.to_set().contains(ps[i]));
        if all_marked(pre.marked, ps) {
            assert(!post.marked.to_set().contains(ps[i]));
        } else {
            assert(post.marked.to_set().contains(ps[i]));
        }
    }
}

/// After `a` every difference's path is marked, and what was marked stays so.
pub proof fn law_mark_all(pre: AppView, post: AppView, height: Option<u16>, out: KeyOutcome)
    requires
        pre.dialog == DialogView::Closed,
        key_step(pre, Key::Char('a'), height, post, out),
    ensures
        forall|i: int| 0 <= i < pre.diffs.len() ==> post.marked.contains(#[trigger] pre.diffs[i].rel_path),
        forall|i: int| 0 <= i < pre.marked.len() ==> post.marked.contains(#[trigger] pre.marked[i]),
{
    let dp = pre.diffs.map_values(|d: DiffModel| d.rel_path);
    assert forall|i: int| 0 <= i < pre.diffs.len() implies post.marked.contains(#[trigger] pre.diffs[i].rel_path) by {
        assert(dp[i] == pre.diffs[i].rel_path);
        assert(dp.to_set().contains(dp[i]));
        assert(post.marked.to_set().contains(pre.diffs[i].rel_path));
    }
    assert forall|i: int| 0 <= i < pre.marked.len() implies post.marked.contains(#[trigger] pre.marked[i]) by {
        assert(pre.marked.to_set().contains(pre.marked[i]));
        assert(post.marked.to_set().contains(pre.marked[i]));
    }
}

/// Pressing `a` a second time changes nothing.
pub proof fn law_mark_all_twice(
    pre: AppView,
    mid: AppView,
    post: AppView,
    height: Option<u16>,
    out1: KeyOutcome,
    out2: KeyOutcome,
)
    requires
        pre.dialog == DialogView::Closed,
        key_step(pre, Key::Char('a'), height, mid, out1),
        key_step(mid, Key::Char('a'), height, post, out2),
    ensures
        post == mid,
{
    assert(post.marked.to_set() =~= mid.marked.to_set());
    lemma_sorted_unique(post.marked, mid.marked);
}

/// Moving keys keep the selection on a row: from a row of a non-empty
/// browser (or from no selection), Down, Up, End, Page Down and Page Up
/// select a row.
pub proof fn law_moves_stay_on_rows(pre: AppView, key: Key, height: Option<u16>, post: AppView, out: KeyOutcome)
    requires
        pre.dialog == DialogView::Closed,
        key_step(pre, key, height, post, out),
        rows_of(pre).len() > 0,
        pre.row matches Some(i) ==> i < rows_of(pre).len(),
        key == Key::Down || key == Key::Up || key == Key::End || key == Key::PageDown || key == Key::PageUp
            || key == Key::Home,
    ensures
        post.row matches Some(j) && j < rows_of(pre).len(),
{
}

/// Keeping the preview in step twice in a row asks for nothing the second
/// time: a preview that started loading is not asked for again.
pub proof fn law_preview_request_once(
    pre: AppView,
    mid: AppView,
    post: AppView,
    a1: Option<Option<PathModel>>,
    a2: Option<Option<PathModel>>,
)
    requires
        preview_step(pre, mid, a1),
        preview_step(mid, post, a2),
    ensures
        post == mid,
        a2 is None || a2 == Some(None::<PathModel>),
{
    assert(rows_of(mid) == rows_of(pre));
    assert(row_node(mid) == row_node(pre));
}

/// With previews on and a file row selected, the selected file's preview
/// is asked for exactly when it is neither the one shown nor the one
/// loading; a preview shown for another path does not count, and then the
/// selected path becomes the one loading.
pub proof fn law_preview_follows_selection(
    pre: AppView,
    post: AppView,
    action: Option<Option<PathModel>>,
    d: DiffModel,
)
    requires
        preview_step(pre, post, action),
        pre.show_preview,
        selected_diff_view(pre) == Some(d),
    ensures
        pre.cached != Some(d.rel_path) && pre.loading != Some(d.rel_path) ==> action == Some(Some(d.rel_path))
            && post.loading == Some(d.rel_path) && post.cached == pre.cached,
        pre.cached == Some(d.rel_path) || pre.loading == Some(d.rel_path) ==> action is None && post == pre,
        (pre.cached matches Some(q) && q != d.rel_path) && pre.loading != Some(d.rel_path) ==> action == Some(
            Some(d.rel_path),
        ),
{
}

/// With no file row selected and previews on, the preview is dropped; with
/// previews off, nothing is asked for and nothing changes.
pub proof fn law_preview_without_file_row(pre: AppView, post: AppView, action: Option<Option<PathModel>>)
    requires
        preview_step(pre, post, action),
    ensures
        !pre.show_preview ==> action is None && post == pre,
        pre.show_preview && selected_diff_view(pre) is None ==> action == Some(None::<PathModel>) && post.cached is None
            && post.loading == pre.loading,
{
}

/// The total bytes of a copy run (0 where no run is open).
pub open spec fn run_total(d: DialogView) -> nat {
    match d {
        DialogView::Copying { total_bytes, .. } => total_bytes as nat,
        _ => 0,
    }
}

proof fn lemma_size_of_path_push(ds: Seq<DiffModel>, d: DiffModel, p: PathModel)
    requires
        d.rel_path != p,
    ensures
        size_of_path(ds.push(d), p) == size_of_path(ds, p),
    decreases ds.len(),
{
    if ds.len() > 0 {
        assert(ds.push(d)[0] == ds[0]);
        assert(ds.push(d).drop_first() =~= ds.drop_first().push(d));
        lemma_size_of_path_push(ds.drop_first(), d, p);
    } else {
        assert(ds.push(d)[0] == d);
        assert(ds.push(d).drop_first() =~= Seq::<DiffModel>::empty());
        assert(size_of_path(ds.push(d).drop_first(), p) == 0);
    }
}

proof fn lemma_sizes_of_push(ps: Seq<PathModel>, ds: Seq<DiffModel>, d: DiffModel)
    requires
        !ps.contains(d.rel_path),
    ensures
        sizes_of(ps, ds.push(d)) == sizes_of(ps, ds),
    decreases ps.len(),
{
    if ps.len() > 0 {
        assert(ps.drop_last().contains(d.rel_path) ==> ps.contains(d.rel_path)) by {
            if ps.drop_last().contains(d.rel_path) {
                let k = choose|k: int| 0 <= k < ps.drop_last().len() && ps.drop_last()[k] == d.rel_path;
                assert(ps[k] == d.rel_path);
            }
        }
        assert(ps[ps.len() - 1] != d.rel_path);
        lemma_sizes_of_push(ps.drop_last(), ds, d);
        lemma_size_of_path_push(ds, d, ps.last());
    }
}

/// The total of a copy run counts the marked files only: a difference that
/// is not marked adds nothing to it, and with nothing marked it is 0.
pub proof fn law_copy_total_counts_marked_only(v: AppView, d: DiffModel)
    requires
        !v.marked.contains(d.rel_path),
    ensures
        run_total(copy_started(AppView { diffs: v.diffs.push(d), ..v })) == run_total(copy_started(v)),
        v.marked.len() == 0 ==> run_total(copy_started(v)) == 0,
{
    lemma_sizes_of_push(v.marked, v.diffs, d);
}

/// A copy run of one marked file totals the size of its difference.
pub proof fn law_copy_total_of_one_file(v: AppView, k: int)
    requires
        0 <= k < v.diffs.len(),
        v.marked == seq![v.diffs[k].rel_path],
        forall|i: int| 0 <= i < k ==> (#[trigger] v.diffs[i]).rel_path != v.diffs[k].rel_path,
    ensures
        run_total(copy_started(v)) == v.diffs[k].size,
{
    lemma_size_of_path_first(v.diffs, k);
    assert(v.marked.drop_last() =~= Seq::<PathModel>::empty());
    assert(sizes_of(v.marked.drop_last(), v.diffs) == 0);
    assert(v.marked.last() == v.diffs[k].rel_path);
    assert(sizes_of(v.marked, v.diffs) == v.diffs[k].size);
}

proof fn lemma_size_of_path_first(ds: Seq<DiffModel>, k: int)
    requires
        0 <= k < ds.len(),
        forall|i: int| 0 <= i < k ==> (#[trigger] ds[i]).rel_path != ds[k].rel_path,
    ensures
        size_of_path(ds, ds[k].rel_path) == ds[k].size,
    decreases k,
{
    if k > 0 {
        let t = ds.drop_first();
        assert forall|i: int| 0 <= i < k - 1 implies (#[trigger] t[i]).rel_path != t[k - 1].rel_path by {
            assert(t[i] == ds[i + 1]);
        }
        assert(ds[0].rel_path != ds[k].rel_path);
        lemma_size_of_path_first(t, k - 1);
    }
}

/// A copy run starts over exactly the marked paths, each once and in path
/// order, every one pending, with nothing copied yet and the first file
/// current.
pub proof fn law_copy_run_starts_over_marked(v: AppView)
    requires
        strictly_sorted(v.marked),
    ensures
        copy_started(v) matches DialogView::Copying { items, copied_bytes, current, file_bytes, .. } && {
            &&& items.len() == v.marked.len()
            &&& forall|k: int| 0 <= k < items.len() ==> (#[trigger] items[k]).1 is Pending && v.marked.contains(items[k].0)
            &&& forall|k: int| 0 <= k < v.marked.len() ==> exists|j: int| 0 <= j < items.len() && (#[trigger] items[j]).0 == #[trigger] v.marked[k]
            &&& forall|a: int, b: int| 0 <= a < b < items.len() ==> path_lt((#[trigger] items[a]).0, (#[trigger] items[b]).0)
            &&& copied_bytes == 0 && current == 0 && file_bytes == 0
        },
{
    let items = v.marked.map_values(|p: PathModel| (p, StatusView::Pending));
    assert forall|k: int| 0 <= k < v.marked.len() implies exists|j: int| 0 <= j < items.len() && (#[trigger] items[j]).0 == #[trigger] v.marked[k] by {
        assert(items[k].0 == v.marked[k]);
    }
    assert forall|k: int| 0 <= k < items.len() implies (#[trigger] items[k]).1 is Pending && v.marked.contains(items[k].0) by {
        assert(items[k].0 == v.marked[k]);
    }
}

/// A cancel leaves no file pending from the current one on: each of them
/// failed as cancelled, and those before keep their outcome.
pub proof fn law_cancel_settles_rest(items: Seq<(PathModel, StatusView)>, current: int)
    requires
        0 <= current <= items.len(),
    ensures
        cancelled_items(items, current).len() == items.len(),
        forall|j: int| current <= j < items.len() ==> #[trigger] cancelled_items(items, current)[j] == (
        items[j].0, StatusView::Failed(cancelled_text())),
        forall|j: int| 0 <= j < current ==> #[trigger] cancelled_items(items, current)[j] == items[j],
{
}

/// A copy confirmation only ever stands over marked paths: in every state
/// the browser can reach, an open confirmation has at least one marked path
/// (and keys in the confirmation leave the marks as they are, by
/// `confirm_key`).
pub proof fn lemma_confirmation_over_marked(app: App)
    requires
        app.wf(),
    ensures
        app@.dialog is Confirm ==> app@.marked.len() > 0,
{
}

/// A copy run that has gone through all its files leaves none of them
/// pending: each was copied or failed (cancelled ones included).
pub proof fn law_finished_run_settles_every_file(app: App)
    requires
        app.wf(),
        copy_complete(app@),
    ensures
        app@.dialog matches DialogView::Copying { items, .. } ==> forall|j: int|
            0 <= j < items.len() ==> !((#[trigger] items[j]).1 is Pending),
{
}

// ---------------------------------------------------------------------------
// Moving through rows

/// The rows of the browser.
pub open spec fn rows_of(v: AppView) -> Seq<(nat, NodeModel)> {
    flattened(v.tree)
}

/// One row down, staying on the last row.
pub open spec fn row_down(row: Option<usize>, len: nat) -> Option<usize> {
    if len > 0 {
        Some(
            match row {
                None => 0,
                Some(i) => if i + 1 <= len - 1 {
                    (i + 1) as usize
                } else {
                    (len - 1) as usize
                },
            },
        )
    } else {
        row
    }
}

/// One row up, staying on the first row.
pub open spec fn row_up(row: Option<usize>) -> Option<usize> {
    Some(
        match row {
            None => 0,
            Some(i) => if i > 0 {
                (i - 1) as usize
            } else {
                0
            },
        },
    )
}

/// The rows of a page for a terminal of the given height (24 when unknown):
/// the height less 8, not below 0.
pub open spec fn page_rows(height: Option<u16>) -> nat {
    let h = match height {
        Some(h) => h as int,
        None => 24,
    };
    if h >= 8 {
        (h - 8) as nat
    } else {
        0
    }
}

pub open spec fn row_page_down(row: Option<usize>, len: nat, page: nat) -> Option<usize> {
    let last: int = if len > 0 {
        len - 1
    } else {
        0
    };
    Some(
        match row {
            None => 0,
            Some(i) => if i + page <= last {
                (i + page) as usize
            } else {
                last as usize
            },
        },
    )
}

pub open spec fn row_page_up(row: Option<usize>, page: nat) -> Option<usize> {
    Some(
        match row {
            None => 0,
            Some(i) => if i >= page {
                (i - page) as usize
            } else {
                0
            },
        },
    )
}

/// The node of the selected row, if the selection falls on a row.
pub open spec fn row_node(v: AppView) -> Option<NodeModel> {
    match v.row {
        Some(i) => if i < rows_of(v).len() {
            Some(rows_of(v)[i as int].1)
        } else {
            None
        },
        None => None,
    }
}

/// The tree after Enter: the selected directory row expanded or collapsed.
pub open spec fn tree_after_enter(v: AppView) -> NodeModel {
    match row_node(v) {
        Some(n) => if n.is_dir {
            toggled(v.tree, n.rel_path)
        } else {
            v.tree
        },
        None => v.tree,
    }
}

// ---------------------------------------------------------------------------
// Marking

/// The relative paths of the files at or below node `m`, in row order.
pub open spec fn file_paths(m: NodeModel) -> Seq<PathModel>
    decreases m, 1nat,
{
    if !m.is_dir {
        seq![m.rel_path]
    } else {
        file_paths_seq(m.children)
    }
}

pub open spec fn file_paths_seq(s: Seq<NodeModel>) -> Seq<PathModel>
    decreases s, 0nat,
{
    if s.len() == 0 {
        Seq::empty()
    } else {
        file_paths_seq(s.drop_last()) + file_paths(s.last())
    }
}

/// A node has as many file paths below it as it counts files: the paths
/// that marking a directory row goes through are exactly its files.
pub proof fn law_file_paths_match_count(m: NodeModel)
    ensures
        file_paths(m).len() == file_total(m),
    decreases m, 1nat,
{
    if m.is_dir {
        lemma_file_paths_seq_count(m.children);
    }
}

proof fn lemma_file_paths_seq_count(s: Seq<NodeModel>)
    ensures
        file_paths_seq(s).len() == crate::tree::file_total_seq(s),
    decreases s, 0nat,
{
    if s.len() > 0 {
        lemma_file_paths_seq_count(s.drop_last());
        law_file_paths_match_count(s.last());
    }
}

/// Every path of `ps` is marked.
pub open spec fn all_marked(marked: Seq<PathModel>, ps: Seq<PathModel>) -> bool {
    forall|i: int| 0 <= i < ps.len() ==> marked.contains(#[trigger] ps[i])
}

/// The marked set after Space: the selected file flips; for a directory,
/// its files are all unmarked if all were marked, else all marked.
pub open spec fn marks_after_space(v: AppView) -> Set<PathModel> {
    match row_node(v) {
        Some(n) => if !n.is_dir {
            if v.marked.contains(n.rel_path) {
                v.marked.to_set().remove(n.rel_path)
            } else {
                v.marked.to_set().insert(n.rel_path)
            }
        } else if all_marked(v.marked, file_paths(n)) {
            v.marked.to_set().difference(file_paths(n).to_set())
        } else {
            v.marked.to_set().union(file_paths(n).to_set())
        },
        None => v.marked.to_set(),
    }
}

/// The paths of all differences.
pub open spec fn diff_paths(ds: Seq<DiffModel>) -> Set<PathModel> {
    ds.map_values(|d: DiffModel| d.rel_path).to_set()
}

// ---------------------------------------------------------------------------
// Keys

/// The copy run that the confirmation starts: every marked path pending,
/// in path order, their sizes added up, nothing copied yet.
pub open spec fn copy_started(v: AppView) -> DialogView {
    DialogView::Copying {
        items: v.marked.map_values(|p: PathModel| (p, StatusView::Pending)),
        total_bytes: sizes_of(v.marked, v.diffs) as u64,
        copied_bytes: 0,
        current: 0,
        scroll: Some(0),
        file_bytes: 0,
        file_total: 0,
    }
}

/// `post` differs from `pre` at most in its marked paths, which are in path
/// order and form the set `s`.
pub open spec fn marks_become(pre: AppView, post: AppView, s: Set<PathModel>) -> bool {
    &&& post == AppView { marked: post.marked, ..pre }
    &&& strictly_sorted(post.marked)
    &&& post.marked.to_set() == s
}

/// What a key does while no dialog is open.
pub open spec fn browse_key(pre: AppView, key: Key, height: Option<u16>, post: AppView, out: KeyOutcome) -> bool {
    let len = rows_of(pre).len();
    let page = page_rows(height);
    if key == Key::Char('q') || key == Key::Esc {
        out == KeyOutcome::Quit && post == pre
    } else {
        &&& out == KeyOutcome::Continue
        &&& if key == Key::Down || key == Key::Char('j') {
            post == AppView { row: row_down(pre.row, len), ..pre }
        } else if key == Key::Up || key == Key::Char('k') {
            post == AppView { row: row_up(pre.row), ..pre }
        } else if key == Key::Home {
            post == AppView { row: Some(0), ..pre }
        } else if key == Key::End {
            post == AppView { row: if len > 0 { Some((len - 1) as usize) } else { pre.row }, ..pre }
        } else if key == Key::PageDown {
            post == AppView { row: row_page_down(pre.row, len, page), ..pre }
        } else if key == Key::PageUp {
            post == AppView { row: row_page_up(pre.row, page), ..pre }
        } else if key == Key::Enter {
            post == AppView { tree: tree_after_enter(pre), ..pre }
        } else if key == Key::Char(' ') {
            marks_become(pre, post, marks_after_space(pre))
        } else if key == Key::Char('a') {
            marks_become(pre, post, pre.marked.to_set().union(diff_paths(pre.diffs)))
        } else if key == Key::Char('u') {
            marks_become(pre, post, Set::empty())
        } else if key == Key::Char('c') {
            post == AppView {
                dialog: if pre.marked.len() > 0 {
                    DialogView::Confirm { scroll: Some(0), button: ConfirmButton::Cancel }
                } else {
                    pre.dialog
                },
                ..pre
            }
        } else if key == Key::Char('p') {
            post == AppView {
                show_preview: !pre.show_preview,
                cached: if pre.show_preview { None } else { pre.cached },
                ..pre
            }
        } else {
            post == pre
        }
    }
}

/// What a key does in the copy confirmation.
pub open spec fn confirm_key(
    pre: AppView,
    key: Key,
    scroll: Option<usize>,
    button: ConfirmButton,
    post: AppView,
) -> bool {
    let len = pre.marked.len();
    if key == Key::Enter {
        post == AppView {
            dialog: if button == ConfirmButton::Copy {
                copy_started(pre)
            } else {
                DialogView::Closed
            },
            ..pre
        }
    } else if key == Key::Left || key == Key::Right || key == Key::Tab {
        post == AppView {
            dialog: DialogView::Confirm {
                scroll,
                button: if button == ConfirmButton::Cancel {
                    ConfirmButton::Copy
                } else {
                    ConfirmButton::Cancel
                },
            },
            ..pre
        }
    } else if key == Key::Esc {
        post == AppView { dialog: DialogView::Closed, ..pre }
    } else if key == Key::Down || key == Key::Char('j') {
        post == AppView { dialog: DialogView::Confirm { scroll: row_down(scroll, len), button }, ..pre }
    } else if key == Key::Up || key == Key::Char('k') {
        post == AppView { dialog: DialogView::Confirm { scroll: row_up(scroll), button }, ..pre }
    } else {
        post == pre
    }
}

/// What a key press does to the browser state: see `browse_key` and
/// `confirm_key`; during a copy, keys are the copy loop's business.
pub open spec fn key_step(pre: AppView, key: Key, height: Option<u16>, post: AppView, out: KeyOutcome) -> bool {
    match pre.dialog {
        DialogView::Closed => browse_key(pre, key, height, post, out),
        DialogView::Confirm { scroll, button } => out == KeyOutcome::Continue && confirm_key(
            pre,
            key,
            scroll,
            button,
            post,
        ),
        DialogView::Copying { .. } => out == KeyOutcome::Continue && post == pre,
    }
}

// ---------------------------------------------------------------------------
// Copying

/// The message of a file whose copy was cancelled.
pub open spec fn cancelled_text() -> Seq<char> {
    seq!['C', 'a', 'n', 'c', 'e', 'l', 'l', 'e', 'd']
}

/// A copy run is open and has files left.
pub open spec fn copy_in_progress(v: AppView) -> bool {
    v.dialog matches DialogView::Copying { items, current, .. } && current < items.len()
}

/// A copy run is open and has gone through all its files.
pub open spec fn copy_complete(v: AppView) -> bool {
    v.dialog matches DialogView::Copying { items, current, .. } && current >= items.len()
}

/// The items after a cancel: from `current` on, every item failed as cancelled.
pub open spec fn cancelled_items(items: Seq<(PathModel, StatusView)>, current: int) -> Seq<
    (PathModel, StatusView),
> {
    Seq::new(
        items.len(),
        |j: int|
            if j < current {
                items[j]
            } else {
                (items[j].0, StatusView::Failed(cancelled_text()))
            },
    )
}

/// The copy run after its current file settled with `status`: the next file
/// is current and the list scrolls to it (or to the last item).
pub open spec fn settled(d: DialogView, status: StatusView) -> DialogView {
    match d {
        DialogView::Copying {
            items,
            total_bytes,
            copied_bytes,
            current,
            scroll,
            file_bytes,
            file_total,
        } => DialogView::Copying {
            items: items.update(current as int, (items[current as int].0, status)),
            total_bytes,
            copied_bytes,
            current: (current + 1) as usize,
            scroll: Some(
                if current + 1 <= items.len() - 1 {
                    (current + 1) as usize
                } else {
                    (items.len() - 1) as usize
                },
            ),
            file_bytes,
            file_total,
        },
        _ => d,
    }
}

// ---------------------------------------------------------------------------
// Preview

/// The difference of the selected row, where it is a file row.
pub open spec fn selected_diff_view(v: AppView) -> Option<DiffModel> {
    match row_node(v) {
        Some(n) => n.diff,
        None => None,
    }
}

pub open spec fn action_view(a: PreviewAction) -> Option<Option<PathModel>> {
    match a {
        PreviewAction::Keep => None,
        PreviewAction::Clear => Some(None),
        PreviewAction::Load(p) => Some(Some(path_view(p@))),
    }
}

/// What keeping the preview in step with the selection does: nothing while
/// previews are off; the preview is dropped where no file row is selected;
/// the selected file's previews start loading unless they are shown or
/// loading already.
pub open spec fn preview_step(pre: AppView, post: AppView, action: Option<Option<PathModel>>) -> bool {
    if !pre.show_preview {
        post == pre && action is None
    } else {
        match selected_diff_view(pre) {
            None => post == AppView { cached: None, ..pre } && action == Some(None::<PathModel>),
            Some(d) => if pre.cached == Some(d.rel_path) || pre.loading == Some(d.rel_path) {
                post == pre && action is None
            } else {
                post == AppView { loading: Some(d.rel_path), ..pre } && action == Some(Some(d.rel_path))
            },
        }
    }
}

// ---------------------------------------------------------------------------
// What the screen shows

/// The number of differences whose file is missing from the destination.
pub open spec fn count_missing(ds: Seq<DiffModel>) -> nat
    decreases ds.len(),
{
    if ds.len() == 0 {
        0
    } else {
        count_missing(ds.drop_last()) + if ds.last().reason is Missing {
            1nat
        } else {
            0
        }
    }
}

/// The number of differences whose source copy is newer.
pub open spec fn count_newer(ds: Seq<DiffModel>) -> nat
    decreases ds.len(),
{
    if ds.len() == 0 {
        0
    } else {
        count_newer(ds.drop_last()) + if ds.last().reason is Newer {
            1nat
        } else {
            0
        }
    }
}

/// Every difference is counted once in the status bar: as new or as
/// modified.
pub proof fn law_new_and_modified_cover_all(ds: Seq<DiffModel>)
    ensures
        count_missing(ds) + count_newer(ds) == ds.len(),
    decreases ds.len(),
{
    if ds.len() > 0 {
        law_new_and_modified_cover_all(ds.drop_last());
    }
}

/// The counts part of the status bar: ` N new, M modified`.
pub open spec fn counts_text(missing: nat, newer: nat) -> Seq<char> {
    " "@ + decimal(missing) + " new, "@ + decimal(newer) + " modified"@
}

/// The total part of the status bar: `Total: ` and the size.
pub open spec fn total_text(size: nat) -> Seq<char> {
    "Total: "@ + size_text(size)
}

/// The selection part of the status bar: `N sel (size)`, or `0 sel`.
pub open spec fn selection_text(count: nat, size: nat) -> Seq<char> {
    if count > 0 {
        decimal(count) + " sel ("@ + size_text(size) + ")"@
    } else {
        "0 sel"@
    }
}

/// The title of the browser: ` source → destination (N files) `.
pub open spec fn browser_title_text(source: Seq<char>, dest: Seq<char>, files: nat) -> Seq<char> {
    " "@ + source + " \u{2192} "@ + dest + " ("@ + decimal(files) + " files) "@
}

/// The title of the copy confirmation: ` Copy N files (size)? `.
pub open spec fn confirm_title_text(count: nat, size: nat) -> Seq<char> {
    " Copy "@ + decimal(count) + " files ("@ + size_text(size) + ")? "@
}

/// The title of a copy run: finished, or still going.
pub open spec fn copy_title_text(complete: bool) -> Seq<char> {
    if complete {
        " Copy complete (press any key) "@
    } else {
        " Copying... (ESC to cancel) "@
    }
}

/// The figures of the status bar.
#[derive(Clone, Copy, Debug)]
pub struct StatusSummary {
    pub missing: usize,
    pub newer: usize,
    pub total_size: u64,
    pub selected_count: usize,
    pub selected_size: u64,
}

/// What one row of the browser shows.
#[derive(Debug)]
pub struct RowInfo {
    pub depth: usize,
    pub name: String,
    pub is_dir: bool,
    pub expanded: bool,
    /// Files at or below the row.
    pub file_count: usize,
    /// Bytes at or below the row.
    pub total_size: u64,
    /// A file row: its path is marked. A directory row: it has files and all are marked.
    pub marked: bool,
    /// A file row: why it differs.
    pub reason: Option<DiffReason>,
}

/// The mark of a row node: for a file, whether its path is marked; for a
/// directory, whether it holds files and all of them are marked.
pub open spec fn row_marked(marked: Seq<PathModel>, n: NodeModel) -> bool {
    if n.is_dir {
        all_marked(marked, file_paths(n)) && file_total(n) > 0
    } else {
        marked.contains(n.rel_path)
    }
}

pub open spec fn row_info_matches(r: RowInfo, row: (nat, NodeModel), marked: Seq<PathModel>) -> bool {
    let n = row.1;
    &&& r.depth == row.0
    &&& r.name@ == n.name
    &&& r.is_dir == n.is_dir
    &&& r.expanded == n.expanded
    &&& r.file_count == file_total(n)
    &&& r.total_size == size_total(n)
    &&& r.marked == row_marked(marked, n)
    &&& r.reason == match n.diff {
        Some(d) => Some(d.reason),
        None => None::<DiffReason>,
    }
}

impl App {
    /// The invariant: a well-formed directory tree holding at most one file
    /// per difference, marked paths in strict path order, sizes that add up
    /// within 64 bits, a confirmation only over marked paths, and a copy run
    /// over at least one item, not past its end, with every file before the
    /// current one settled (done or failed).
    pub closed spec fn wf(&self) -> bool {
        let v = self@;
        &&& crate::tree::wf(v.tree)
        &&& v.tree.is_dir
        &&& file_total(v.tree) <= v.diffs.len()
        &&& size_total(v.tree) <= sum_sizes(v.diffs)
        &&& self.selected.wf()
        &&& sum_sizes(v.diffs) <= u64::MAX
        &&& (v.dialog matches DialogView::Confirm { .. } ==> v.marked.len() > 0)
        &&& (v.dialog matches DialogView::Copying { items, current, .. } ==> items.len() > 0
            && current <= items.len() && forall|j: int| 0 <= j < current ==> !((#[trigger] items[j]).1 is Pending))
    }

    /// A browser over `diffs`: their tree, the first row selected where
    /// there is one, nothing marked, previews on, no dialog.
    pub fn new(diffs: Vec<FileDiff>) -> (app: App)
        requires
            sum_sizes(diffs@.map_values(|d: FileDiff| d@)) <= u64::MAX,
        ensures
            app.wf(),
            app@.diffs == diffs@.map_values(|d: FileDiff| d@),
            app@.tree == built(app@.diffs),
            app@.row == (if flattened(app@.tree).len() > 0 {
                Some(0usize)
            } else {
                None::<usize>
            }),
            app@.show_preview,
            app@.marked == Seq::<PathModel>::empty(),
            app@.dialog == DialogView::Closed,
            app@.cached is None,
            app@.loading is None,
    {
        let tree = build_tree(diffs.as_slice());
        proof {
            lemma_built_totals(diffs@.map_values(|d: FileDiff| d@));
        }
        let rows = tree.flatten();
        let selected_row = if rows.len() > 0 {
            Some(0)
        } else {
            None
        };
        let app = App {
            diffs,
            tree,
            selected_row,
            show_preview: true,
            selected: PathSet::new(),
            dialog: DialogState::Closed,
            preview_cached: None,
            preview_loading: None,
        };
        app
    }

    /// The number of rows of the browser.
    pub fn row_count(&self) -> (n: usize)
        ensures
            n == rows_of(self@).len(),
    {
        let rows = self.tree.flatten();
        rows.len()
    }

    /// Tells the state which row the drawn list ended up selecting (the
    /// list widget keeps the selection within its rows when drawing).
    pub fn set_selected_row(&mut self, row: Option<usize>)
        requires
            old(self).wf(),
        ensures
            final(self).wf(),
            final(self)@ == (AppView { row: row, ..old(self)@ }),
    {
        self.selected_row = row;
    }

    fn move_down(&mut self)
        requires
            old(self).wf(),
        ensures
            final(self).wf(),
            final(self)@ == (AppView { row: row_down(old(self)@.row, rows_of(old(self)@).len()), ..old(self)@ }),
    {
        let len = self.row_count();
        if len > 0 {
            let i = match self.selected_row {
                None => 0,
                Some(i) => if i >= len - 1 {
                    len - 1
                } else {
                    i + 1
                },
            };
            self.selected_row = Some(i);
        }
    }

    fn move_up(&mut self)
        requires
            old(self).wf(),
        ensures
            final(self).wf(),
            final(self)@ == (AppView { row: row_up(old(self)@.row), ..old(self)@ }),
    {
        let i = match self.selected_row {
            None => 0,
            Some(i) => if i > 0 {
                i - 1
            } else {
                0
            },
        };
        self.selected_row = Some(i);
    }

    fn page_of(height: Option<u16>) -> (page: usize)
        ensures
            page == page_rows(height),
    {
        let h: u16 = match height {
            Some(h) => h,
            None => 24,
        };
        if h >= 8 {
            (h - 8) as usize
        } else {
            0
        }
    }

    fn page_down(&mut self, height: Option<u16>)
        requires
            old(self).wf(),
        ensures
            final(self).wf(),
            final(self)@ == (AppView {
                row: row_page_down(old(self)@.row, rows_of(old(self)@).len(), page_rows(height)),
                ..old(self)@
            }),
    {
        let page = Self::page_of(height);
        let len = self.row_count();
        let last: usize = if len > 0 {
            len - 1
        } else {
            0
        };
        let i = match self.selected_row {
            None => 0,
            Some(i) => if page > last || i > last - page {
                last
            } else {
                i + page
            },
        };
        self.selected_row = Some(i);
    }

    fn page_up(&mut self, height: Option<u16>)
        requires
            old(self).wf(),
        ensures
            final(self).wf(),
            final(self)@ == (AppView { row: row_page_up(old(self)@.row, page_rows(height)), ..old(self)@ }),
    {
        let page = Self::page_of(height);
        let i = match self.selected_row {
            None => 0,
            Some(i) => if i >= page {
                i - page
            } else {
                0
            },
        };
        self.selected_row = Some(i);
    }

    /// Expands or collapses the directory of the selected row.
    fn toggle_expand(&mut self)
        requires
            old(self).wf(),
        ensures
            final(self).wf(),
            final(self)@ == (AppView { tree: tree_after_enter(old(self)@), ..old(self)@ }),
    {
        let ghost v = self@;
        let path = {
            let flat = self.tree.flatten();
            match self.selected_row {
                Some(idx) => {
                    if idx < flat.len() && flat[idx].1.is_dir {
                        assert(rows_view(flat@)[idx as int] == (flat@[idx as int].0 as nat, flat@[idx as int].1@));
                        Some(clone_path(&flat[idx].1.rel_path))
                    } else {
                        proof {
                            if idx < flat@.len() {
                                assert(rows_view(flat@)[idx as int] == (flat@[idx as int].0 as nat, flat@[idx as int].1@));
                            }
                        }
                        None
                    }
                },
                None => None,
            }
        };
        if let Some(p) = path {
            proof {
                lemma_toggled_wf(v.tree, path_view(p@));
                lemma_toggled_totals(v.tree, path_view(p@));
            }
            self.tree.toggle_expand(&p);
        }
    }

    fn collect_into(node: &TreeNode, out: &mut Vec<Vec<String>>)
        ensures
            final(out)@.map_values(|p: Vec<String>| path_view(p@)) == old(out)@.map_values(
                |p: Vec<String>| path_view(p@),
            ) + file_paths(node@),
        decreases node,
    {
        let ghost start = out@.map_values(|p: Vec<String>| path_view(p@));
        if !node.is_dir {
            out.push(clone_path(&node.rel_path));
            assert(out@.map_values(|p: Vec<String>| path_view(p@)) =~= start + file_paths(node@));
            return;
        }
        let ghost m = node@;
        let mut i: usize = 0;
        assert(m.children.take(0) =~= Seq::<NodeModel>::empty());
        assert(start + file_paths_seq(m.children.take(0)) =~= start);
        while i < node.children.len()
            invariant
                i <= node.children@.len(),
                m == node@,
                m.is_dir,
                out@.map_values(|p: Vec<String>| path_view(p@)) == start + file_paths_seq(m.children.take(i as int)),
            decreases node.children@.len() - i,
        {
            assert(m.children[i as int] == crate::tree::model_of(node.children@[i as int]));
            assert(m.children.take(i + 1).drop_last() =~= m.children.take(i as int));
            Self::collect_into(&node.children[i], out);
            i = i + 1;
        }
        assert(m.children.take(i as int) =~= m.children);
    }

    /// The relative paths of the files at or below `node`, in row order.
    pub fn collect_file_paths(&self, node: &TreeNode) -> (paths: Vec<Vec<String>>)
        ensures
            paths@.map_values(|p: Vec<String>| path_view(p@)) == file_paths(node@),
    {
        let mut out: Vec<Vec<String>> = Vec::new();
        assert(out@.map_values(|p: Vec<String>| path_view(p@)) =~= Seq::<PathModel>::empty());
        Self::collect_into(node, &mut out);
        assert(Seq::<PathModel>::empty() + file_paths(node@) =~= file_paths(node@));
        out
    }

    /// Marks or unmarks the file of the selected row, or all files of the
    /// selected directory (see `marks_after_space`).
    pub fn toggle_select(&mut self)
        requires
            old(self).wf(),
            old(self)@.dialog == DialogView::Closed,
        ensures
            final(self).wf(),
            marks_become(old(self)@, final(self)@, marks_after_space(old(self)@)),
    {
        let ghost v = self@;
        let ghost node_m: NodeModel;
        let (is_dir, paths): (bool, Vec<Vec<String>>) = {
            let flat = self.tree.flatten();
            match self.selected_row {
                Some(idx) => {
                    if idx < flat.len() {
                        let node = flat[idx].1;
                        assert(rows_view(flat@)[idx as int] == (flat@[idx as int].0 as nat, flat@[idx as int].1@));
                        proof {
                            node_m = node@;
                        }
                        assert(row_node(v) == Some(node_m));
                        if node.is_dir {
                            (true, self.collect_file_paths(node))
                        } else {
                            let mut one: Vec<Vec<String>> = Vec::new();
                            one.push(clone_path(&node.rel_path));
                            (false, one)
                        }
                    } else {
                        assert(v.marked.to_set() =~= marks_after_space(v));
                        return ;
                    }
                },
                None => {
                    assert(v.marked.to_set() =~= marks_after_space(v));
                    return ;
                },
            }
        };
        let ghost ps = paths@.map_values(|p: Vec<String>| path_view(p@));
        if !is_dir {
            assert(ps[0] == node_m.rel_path);
            let removed = self.selected.remove(&paths[0]);
            if !removed {
                self.selected.insert(clone_path(&paths[0]));
            }
            proof {
                if !removed {
                    assert(v.marked.to_set().remove(node_m.rel_path) =~= v.marked.to_set());
                }
            }
            return ;
        }
        assert(ps == file_paths(node_m));
        // are all files of the directory marked?
        let mut all = true;
        let mut i: usize = 0;
        while i < paths.len()
            invariant
                i <= paths@.len(),
                ps == paths@.map_values(|p: Vec<String>| path_view(p@)),
                self.selected.wf(),
                self.selected@ == v.marked,
                all == (forall|j: int| 0 <= j < i ==> v.marked.contains(#[trigger] ps[j])),
            decreases paths@.len() - i,
        {
            assert(ps[i as int] == path_view(paths@[i as int]@));
            if !self.selected.contains(&paths[i]) {
                all = false;
            }
            i = i + 1;
        }
        assert(all == all_marked(v.marked, ps));
        let mut k: usize = 0;
        assert(ps.take(0).to_set() =~= Set::<PathModel>::empty());
        assert(v.marked.to_set().difference(Set::empty()) =~= v.marked.to_set());
        assert(v.marked.to_set().union(Set::empty()) =~= v.marked.to_set());
        while k < paths.len()
            invariant
                k <= paths@.len(),
                ps == paths@.map_values(|p: Vec<String>| path_view(p@)),
                self.selected.wf(),
                self@ == (AppView { marked: self@.marked, ..v }),
                self.selected@.to_set() == (if all {
                    v.marked.to_set().difference(ps.take(k as int).to_set())
                } else {
                    v.marked.to_set().union(ps.take(k as int).to_set())
                }),
            decreases paths@.len() - k,
        {
            assert(ps.take(k + 1).to_set() =~= ps.take(k as int).to_set().insert(ps[k as int])) by {
                assert(ps.take(k + 1) =~= ps.take(k as int).push(ps[k as int]));
                ps.take(k as int).lemma_push_to_set_commute(ps[k as int]);
            }
            assert(ps[k as int] == path_view(paths@[k as int]@));
            if all {
                self.selected.remove(&paths[k]);
                assert(v.marked.to_set().difference(ps.take(k + 1).to_set()) =~= v.marked.to_set().difference(
                    ps.take(k as int).to_set(),
                ).remove(ps[k as int]));
            } else {
                self.selected.insert(clone_path(&paths[k]));
                assert(v.marked.to_set().union(ps.take(k + 1).to_set()) =~= v.marked.to_set().union(
                    ps.take(k as int).to_set(),
                ).insert(ps[k as int]));
            }
            k = k + 1;
        }
        assert(ps.take(k as int) =~= ps);
    }

    /// Marks every difference's path.
    pub fn select_all(&mut self)
        requires
            old(self).wf(),
            old(self)@.dialog == DialogView::Closed,
        ensures
            final(self).wf(),
            marks_become(old(self)@, final(self)@, old(self)@.marked.to_set().union(diff_paths(old(self)@.diffs))),
    {
        let ghost v = self@;
        let ghost dp = v.diffs.map_values(|d: DiffModel| d.rel_path);
        let mut i: usize = 0;
        assert(dp.take(0).to_set() =~= Set::<PathModel>::empty());
        assert(v.marked.to_set().union(Set::empty()) =~= v.marked.to_set());
        while i < self.diffs.len()
            invariant
                i <= self.diffs@.len(),
                dp == v.diffs.map_values(|d: DiffModel| d.rel_path),
                v.diffs == self.diffs@.map_values(|d: FileDiff| d@),
                self.selected.wf(),
                self@ == (AppView { marked: self@.marked, ..v }),
                self.selected@.to_set() == v.marked.to_set().union(dp.take(i as int).to_set()),
            decreases self.diffs@.len() - i,
        {
            let p = clone_path(&self.diffs[i].rel_path);
            assert(dp[i as int] == path_view(p@));
            assert(dp.take(i + 1) =~= dp.take(i as int).push(dp[i as int]));
            proof {
                dp.take(i as int).lemma_push_to_set_commute(dp[i as int]);
            }
            assert(dp.take(i + 1).to_set() =~= dp.take(i as int).to_set().insert(dp[i as int]));
            self.selected.insert(p);
            assert(v.marked.to_set().union(dp.take(i + 1).to_set()) =~= v.marked.to_set().union(
                dp.take(i as int).to_set(),
            ).insert(dp[i as int]));
            i = i + 1;
        }
        assert(dp.take(i as int) =~= dp);
    }

    /// Unmarks everything.
    fn deselect_all(&mut self)
        requires
            old(self).wf(),
            old(self)@.dialog == DialogView::Closed,
        ensures
            final(self).wf(),
            marks_become(old(self)@, final(self)@, Set::empty()),
    {
        self.selected.clear();
        assert(Seq::<PathModel>::empty().to_set() =~= Set::<PathModel>::empty());
    }

    /// The size of the first difference at `p` (0 where there is none).
    fn size_of(&self, p: &Vec<String>) -> (r: u64)
        requires
            self.wf(),
        ensures
            r == size_of_path(self@.diffs, path_view(p@)),
    {
        let ghost ds = self@.diffs;
        let mut i: usize = 0;
        assert(ds.skip(0) =~= ds);
        while i < self.diffs.len()
            invariant
                i <= self.diffs@.len(),
                ds == self.diffs@.map_values(|d: FileDiff| d@),
                size_of_path(ds, path_view(p@)) == size_of_path(ds.skip(i as int), path_view(p@)),
            decreases self.diffs@.len() - i,
        {
            assert(ds.skip(i as int)[0] == ds[i as int]);
            assert(ds.skip(i as int).drop_first() =~= ds.skip(i + 1));
            if compare_paths(&self.diffs[i].rel_path, p) == Order::Equal {
                return self.diffs[i].size;
            }
            i = i + 1;
        }
        assert(ds.skip(i as int).len() == 0);
        0
    }

    /// Starts the copy of the marked paths (see `copy_started`).
    fn start_copy(&mut self)
        requires
            old(self).wf(),
            old(self)@.marked.len() > 0,
        ensures
            final(self).wf(),
            final(self)@ == (AppView { dialog: copy_started(old(self)@), ..old(self)@ }),
    {
        let ghost v = self@;
        proof {
            lemma_sorted_is_distinct(v.marked);
            lemma_sizes_of_bounded(v.marked, v.diffs);
        }
        let mut items: Vec<(Vec<String>, CopyStatus)> = Vec::new();
        let mut total: u64 = 0;
        let mut i: usize = 0;
        let n = self.selected.len();
        while i < n
            invariant
                i <= n,
                n == v.marked.len(),
                self@ == v,
                self.wf(),
                sizes_of(v.marked, v.diffs) <= u64::MAX,
                total == sizes_of(v.marked.take(i as int), v.diffs),
                items@.map_values(|it: (Vec<String>, CopyStatus)| item_view(it)) == v.marked.take(i as int).map_values(
                    |p: PathModel| (p, StatusView::Pending),
                ),
            decreases n - i,
        {
            let p = self.selected.get(i);
            let sz = self.size_of(p);
            assert(v.marked.take(i + 1).drop_last() =~= v.marked.take(i as int));
            proof {
                lemma_sizes_of_prefix(v.marked, v.diffs, i + 1);
            }
            total = total + sz;
            let ghost before = items@;
            let entry = (clone_path(p), CopyStatus::Pending);
            assert(item_view(entry) == (v.marked[i as int], StatusView::Pending));
            items.push(entry);
            assert(items@ == before.push(entry));
            assert(items@.map_values(|it: (Vec<String>, CopyStatus)| item_view(it)) =~= before.map_values(
                |it: (Vec<String>, CopyStatus)| item_view(it),
            ).push(item_view(entry)));
            assert(v.marked.take(i + 1).map_values(|p: PathModel| (p, StatusView::Pending)) =~= v.marked.take(
                i as int,
            ).map_values(|p: PathModel| (p, StatusView::Pending)).push((v.marked[i as int], StatusView::Pending)));
            i = i + 1;
        }
        assert(v.marked.take(i as int) =~= v.marked);
        self.dialog = DialogState::Copying {
            items,
            total_bytes: total,
            copied_bytes: 0,
            current: 0,
            scroll: Some(0),
            file_bytes: 0,
            file_total: 0,
        };
    }

    fn browse_key(&mut self, key: Key, height: Option<u16>) -> (out: KeyOutcome)
        requires
            old(self).wf(),
            old(self)@.dialog == DialogView::Closed,
        ensures
            final(self).wf(),
            browse_key(old(self)@, key, height, final(self)@, out),
    {
        match key {
            Key::Char('q') | Key::Esc => KeyOutcome::Quit,
            Key::Down | Key::Char('j') => {
                self.move_down();
                KeyOutcome::Continue
            },
            Key::Up | Key::Char('k') => {
                self.move_up();
                KeyOutcome::Continue
            },
            Key::Home => {
                self.selected_row = Some(0);
                KeyOutcome::Continue
            },
            Key::End => {
                let len = self.row_count();
                if len > 0 {
                    self.selected_row = Some(len - 1);
                }
                KeyOutcome::Continue
            },
            Key::PageDown => {
                self.page_down(height);
                KeyOutcome::Continue
            },
            Key::PageUp => {
                self.page_up(height);
                KeyOutcome::Continue
            },
            Key::Enter => {
                self.toggle_expand();
                KeyOutcome::Continue
            },
            Key::Char(' ') => {
                self.toggle_select();
                KeyOutcome::Continue
            },
            Key::Char('a') => {
                self.select_all();
                KeyOutcome::Continue
            },
            Key::Char('u') => {
                self.deselect_all();
                KeyOutcome::Continue
            },
            Key::Char('c') => {
                if !self.selected.is_empty() {
                    self.dialog = DialogState::ConfirmCopy { scroll: Some(0), button: ConfirmButton::Cancel };
                }
                KeyOutcome::Continue
            },
            Key::Char('p') => {
                self.show_preview = !self.show_preview;
                if !self.show_preview {
                    self.preview_cached = None;
                }
                KeyOutcome::Continue
            },
            _ => KeyOutcome::Continue,
        }
    }

    fn confirm_key(&mut self, key: Key, scroll: Option<usize>, button: ConfirmButton)
        requires
            old(self).wf(),
            old(self)@.dialog == (DialogView::Confirm { scroll, button }),
        ensures
            final(self).wf(),
            confirm_key(old(self)@, key, scroll, button, final(self)@),
    {
        match key {
            Key::Enter => {
                if button == ConfirmButton::Copy {
                    self.start_copy();
                } else {
                    self.dialog = DialogState::Closed;
                }
            },
            Key::Left | Key::Right | Key::Tab => {
                let b = match button {
                    ConfirmButton::Cancel => ConfirmButton::Copy,
                    ConfirmButton::Copy => ConfirmButton::Cancel,
                };
                self.dialog = DialogState::ConfirmCopy { scroll, button: b };
            },
            Key::Esc => {
                self.dialog = DialogState::Closed;
            },
            Key::Down | Key::Char('j') => {
                let len = self.selected.len();
                let i = match scroll {
                    None => 0,
                    Some(i) => if i >= len - 1 {
                        len - 1
                    } else {
                        i + 1
                    },
                };
                self.dialog = DialogState::ConfirmCopy { scroll: Some(i), button };
            },
            Key::Up | Key::Char('k') => {
                let i = match scroll {
                    None => 0,
                    Some(i) => if i > 0 {
                        i - 1
                    } else {
                        0
                    },
                };
                self.dialog = DialogState::ConfirmCopy { scroll: Some(i), button };
            },
            _ => {},
        }
    }

    /// Acts on a key press (see `key_step`); `height` is the terminal's
    /// height where known, for paging.
    pub fn handle_key(&mut self, key: Key, height: Option<u16>) -> (out: KeyOutcome)
        requires
            old(self).wf(),
        ensures
            final(self).wf(),
            key_step(old(self)@, key, height, final(self)@, out),
    {
        let mut mode: u8 = 0;
        let mut sc: Option<usize> = None;
        let mut bt = ConfirmButton::Cancel;
        match &self.dialog {
            DialogState::Closed => {},
            DialogState::ConfirmCopy { scroll, button } => {
                mode = 1;
                sc = *scroll;
                bt = *button;
            },
            DialogState::Copying { .. } => {
                mode = 2;
            },
        }
        if mode == 0 {
            self.browse_key(key, height)
        } else if mode == 1 {
            self.confirm_key(key, sc, bt);
            KeyOutcome::Continue
        } else {
            KeyOutcome::Continue
        }
    }

    /// The dialog over the browser.
    pub fn dialog(&self) -> (d: &DialogState)
        ensures
            dialog_view(*d) == self@.dialog,
    {
        &self.dialog
    }

    pub fn selected_row(&self) -> (r: Option<usize>)
        ensures
            r == self@.row,
    {
        self.selected_row
    }

    pub fn show_preview(&self) -> (b: bool)
        ensures
            b == self@.show_preview,
    {
        self.show_preview
    }

    /// The differences, in scan order.
    pub fn diffs(&self) -> (d: &Vec<FileDiff>)
        ensures
            d@.map_values(|x: FileDiff| x@) == self@.diffs,
    {
        &self.diffs
    }

    /// The marked paths, in path order.
    pub fn marked(&self) -> (m: &PathSet)
        requires
            self.wf(),
        ensures
            m@ == self@.marked,
            m.wf(),
    {
        &self.selected
    }

    /// The path whose preview is shown.
    pub fn preview_cached(&self) -> (p: &Option<Vec<String>>)
        ensures
            opt_path(*p) == self@.cached,
    {
        &self.preview_cached
    }

    /// Whether a copy run is open and has files left.
    pub fn copy_in_progress(&self) -> (b: bool)
        ensures
            b == copy_in_progress(self@),
    {
        match &self.dialog {
            DialogState::Copying { items, current, .. } => *current < items.len(),
            _ => false,
        }
    }

    /// Whether a copy run is open and done.
    pub fn copy_complete(&self) -> (b: bool)
        ensures
            b == copy_complete(self@),
    {
        match &self.dialog {
            DialogState::Copying { items, current, .. } => *current >= items.len(),
            _ => false,
        }
    }

    /// Cancels the rest of the copy run: every file not yet settled fails as
    /// cancelled, and the run is done.
    pub fn cancel_copy(&mut self)
        requires
            old(self).wf(),
            copy_in_progress(old(self)@),
        ensures
            final(self).wf(),
            final(self)@ == (AppView {
                dialog: match old(self)@.dialog {
                    DialogView::Copying { items, total_bytes, copied_bytes, current, scroll, file_bytes, file_total } =>
                        DialogView::Copying {
                        items: cancelled_items(items, current as int),
                        total_bytes,
                        copied_bytes,
                        current: items.len() as usize,
                        scroll,
                        file_bytes,
                        file_total,
                    },
                    _ => old(self)@.dialog,
                },
                ..old(self)@
            }),
    {
        let ghost v = self@;
        let mut d = DialogState::Closed;
        std::mem::swap(&mut self.dialog, &mut d);
        match d {
            DialogState::Copying { mut items, total_bytes, copied_bytes, current, scroll, file_bytes, file_total } => {
                let ghost start = items@.map_values(|it: (Vec<String>, CopyStatus)| item_view(it));
                let mut j = current;
                while j < items.len()
                    invariant
                        current <= j <= items@.len(),
                        items@.len() == start.len(),
                        forall|k: int| 0 <= k < j ==> #[trigger] item_view(items@[k]) == cancelled_items(start, current as int)[k],
                        forall|k: int| j <= k < items@.len() ==> #[trigger] item_view(items@[k]) == start[k],
                    decreases items@.len() - j,
                {
                    let mut msg = String::new();
                    push_char(&mut msg, 'C');
                    push_char(&mut msg, 'a');
                    push_char(&mut msg, 'n');
                    push_char(&mut msg, 'c');
                    push_char(&mut msg, 'e');
                    push_char(&mut msg, 'l');
                    push_char(&mut msg, 'l');
                    push_char(&mut msg, 'e');
                    push_char(&mut msg, 'd');
                    assert(msg@ =~= cancelled_text());
                    let ghost prev = items@;
                    items[j].1 = CopyStatus::Failed(msg);
                    assert(items@[j as int].0 == prev[j as int].0);
                    assert(start[j as int] == item_view(prev[j as int]));
                    assert(item_view(items@[j as int]) == cancelled_items(start, current as int)[j as int]);
                    assert forall|k: int| 0 <= k < items@.len() && k != j implies items@[k] == prev[k] by {}
                    j = j + 1;
                }
                let n = items.len();
                assert(items@.map_values(|it: (Vec<String>, CopyStatus)| item_view(it)) =~= cancelled_items(start, current as int));
                self.dialog = DialogState::Copying { items, total_bytes, copied_bytes, current: n, scroll, file_bytes, file_total };
            },
            other => {
                self.dialog = other;
            },
        }
    }

    /// Starts on the current file of the copy run: its size (of its
    /// difference) is the file's total, nothing of it is copied yet; gives
    /// its relative path.
    pub fn begin_current_file(&mut self) -> (p: Vec<String>)
        requires
            old(self).wf(),
            copy_in_progress(old(self)@),
        ensures
            final(self).wf(),
            match old(self)@.dialog {
                DialogView::Copying { items, total_bytes, copied_bytes, current, scroll, file_bytes, file_total } => {
                    &&& path_view(p@) == items[current as int].0
                    &&& final(self)@ == (AppView {
                        dialog: DialogView::Copying {
                            items,
                            total_bytes,
                            copied_bytes,
                            current,
                            scroll,
                            file_bytes: 0,
                            file_total: size_of_path(old(self)@.diffs, items[current as int].0) as u64,
                        },
                        ..old(self)@
                    })
                },
                _ => false,
            },
    {
        let ghost v = self@;
        let mut d = DialogState::Closed;
        std::mem::swap(&mut self.dialog, &mut d);
        match d {
            DialogState::Copying { items, total_bytes, copied_bytes, current, scroll, file_bytes, file_total } => {
                assert(item_view(items@[current as int]) == (path_view(items@[current as int].0@), status_view(items@[current as int].1)));
                let p = clone_path(&items[current].0);
                let size = self.size_of(&p);
                self.dialog = DialogState::Copying {
                    items,
                    total_bytes,
                    copied_bytes,
                    current,
                    scroll,
                    file_bytes: 0,
                    file_total: size,
                };
                p
            },
            other => {
                self.dialog = other;
                Vec::new()
            },
        }
    }

    fn settle_current(&mut self, status: CopyStatus)
        requires
            old(self).wf(),
            copy_in_progress(old(self)@),
            !(status is Pending),
        ensures
            final(self).wf(),
            final(self)@ == (AppView { dialog: settled(old(self)@.dialog, status_view(status)), ..old(self)@ }),
    {
        let ghost v = self@;
        let mut d = DialogState::Closed;
        std::mem::swap(&mut self.dialog, &mut d);
        match d {
            DialogState::Copying { mut items, total_bytes, copied_bytes, current, scroll, file_bytes, file_total } => {
                let ghost start = items@.map_values(|it: (Vec<String>, CopyStatus)| item_view(it));
                assert(current < items@.len());
                assert(items@.len() == items.len());
                assert(start[current as int] == (path_view(items@[current as int].0@), status_view(items@[current as int].1)));
                items[current].1 = status;
                let next = current + 1;
                let last = items.len() - 1;
                let sc = if next <= last {
                    next
                } else {
                    last
                };
                assert(items@.map_values(|it: (Vec<String>, CopyStatus)| item_view(it)) =~= start.update(
                    current as int,
                    (start[current as int].0, status_view(status)),
                ));
                self.dialog = DialogState::Copying {
                    items,
                    total_bytes,
                    copied_bytes,
                    current: next,
                    scroll: Some(sc),
                    file_bytes,
                    file_total,
                };
            },
            other => {
                self.dialog = other;
            },
        }
    }

    /// The current file is copied; the next one is current.
    pub fn current_file_done(&mut self)
        requires
            old(self).wf(),
            copy_in_progress(old(self)@),
        ensures
            final(self).wf(),
            final(self)@ == (AppView { dialog: settled(old(self)@.dialog, StatusView::Done), ..old(self)@ }),
    {
        self.settle_current(CopyStatus::Done);
    }

    /// The current file failed with `message`; the next one is current.
    pub fn current_file_failed(&mut self, message: String)
        requires
            old(self).wf(),
            copy_in_progress(old(self)@),
        ensures
            final(self).wf(),
            final(self)@ == (AppView { dialog: settled(old(self)@.dialog, StatusView::Failed(message@)), ..old(self)@ }),
    {
        self.settle_current(CopyStatus::Failed(message));
    }

    /// `n` more bytes of the current file are written.
    pub fn record_written(&mut self, n: u64)
        requires
            old(self).wf(),
            match old(self)@.dialog {
                DialogView::Copying { items, copied_bytes, current, file_bytes, .. } => current < items.len()
                    && file_bytes + n <= u64::MAX && copied_bytes + n <= u64::MAX,
                _ => false,
            },
        ensures
            final(self).wf(),
            final(self)@ == (AppView {
                dialog: match old(self)@.dialog {
                    DialogView::Copying { items, total_bytes, copied_bytes, current, scroll, file_bytes, file_total } =>
                        DialogView::Copying {
                        items,
                        total_bytes,
                        copied_bytes: (copied_bytes + n) as u64,
                        current,
                        scroll,
                        file_bytes: (file_bytes + n) as u64,
                        file_total,
                    },
                    _ => old(self)@.dialog,
                },
                ..old(self)@
            }),
    {
        let mut d = DialogState::Closed;
        std::mem::swap(&mut self.dialog, &mut d);
        match d {
            DialogState::Copying { items, total_bytes, copied_bytes, current, scroll, file_bytes, file_total } => {
                self.dialog = DialogState::Copying {
                    items,
                    total_bytes,
                    copied_bytes: copied_bytes + n,
                    current,
                    scroll,
                    file_bytes: file_bytes + n,
                    file_total,
                };
            },
            other => {
                self.dialog = other;
            },
        }
    }

    /// Whether `n` more written bytes still fit the counters.
    pub fn can_record(&self, n: u64) -> (b: bool)
        ensures
            b == match self@.dialog {
                DialogView::Copying { copied_bytes, file_bytes, .. } => file_bytes + n <= u64::MAX
                    && copied_bytes + n <= u64::MAX,
                _ => false,
            },
    {
        match &self.dialog {
            DialogState::Copying { copied_bytes, file_bytes, .. } => *file_bytes <= u64::MAX - n
                && *copied_bytes <= u64::MAX - n,
            _ => false,
        }
    }

    /// The step of the copy run for `event`: Esc cancels the rest, a
    /// failure settles the current file as failed with its message, the end
    /// of the source settles it as done, and written bytes are counted. The
    /// files stay open only after written bytes.
    pub fn copy_step(&mut self, event: CopyEvent) -> (action: FileAction)
        requires
            old(self).wf(),
            copy_in_progress(old(self)@),
            event matches CopyEvent::Written(n) ==> (old(self)@.dialog matches DialogView::Copying {
                copied_bytes,
                file_bytes,
                ..
            } && file_bytes + n <= u64::MAX && copied_bytes + n <= u64::MAX),
        ensures
            final(self).wf(),
            action == (if event is Written {
                FileAction::KeepOpen
            } else {
                FileAction::Close
            }),
            match event {
                CopyEvent::Escape => final(self)@ == (AppView {
                    dialog: match old(self)@.dialog {
                        DialogView::Copying {
                            items,
                            total_bytes,
                            copied_bytes,
                            current,
                            scroll,
                            file_bytes,
                            file_total,
                        } => DialogView::Copying {
                            items: cancelled_items(items, current as int),
                            total_bytes,
                            copied_bytes,
                            current: items.len() as usize,
                            scroll,
                            file_bytes,
                            file_total,
                        },
                        _ => old(self)@.dialog,
                    },
                    ..old(self)@
                }),
                CopyEvent::OpenFailed(m) => final(self)@ == (AppView {
                    dialog: settled(old(self)@.dialog, StatusView::Failed(m@)),
                    ..old(self)@
                }),
                CopyEvent::ReadFailed(m) => final(self)@ == (AppView {
                    dialog: settled(old(self)@.dialog, StatusView::Failed(m@)),
                    ..old(self)@
                }),
                CopyEvent::WriteFailed(m) => final(self)@ == (AppView {
                    dialog: settled(old(self)@.dialog, StatusView::Failed(m@)),
                    ..old(self)@
                }),
                CopyEvent::EndOfFile => final(self)@ == (AppView {
                    dialog: settled(old(self)@.dialog, StatusView::Done),
                    ..old(self)@
                }),
                CopyEvent::Written(n) => final(self)@ == (AppView {
                    dialog: match old(self)@.dialog {
                        DialogView::Copying {
                            items,
                            total_bytes,
                            copied_bytes,
                            current,
                            scroll,
                            file_bytes,
                            file_total,
                        } => DialogView::Copying {
                            items,
                            total_bytes,
                            copied_bytes: (copied_bytes + n) as u64,
                            current,
                            scroll,
                            file_bytes: (file_bytes + n) as u64,
                            file_total,
                        },
                        _ => old(self)@.dialog,
                    },
                    ..old(self)@
                }),
            },
    {
        match event {
            CopyEvent::Escape => {
                self.cancel_copy();
                FileAction::Close
            },
            CopyEvent::OpenFailed(m) => {
                self.current_file_failed(m);
                FileAction::Close
            },
            CopyEvent::ReadFailed(m) => {
                self.current_file_failed(m);
                FileAction::Close
            },
            CopyEvent::WriteFailed(m) => {
                self.current_file_failed(m);
                FileAction::Close
            },
            CopyEvent::EndOfFile => {
                self.current_file_done();
                FileAction::Close
            },
            CopyEvent::Written(n) => {
                self.record_written(n);
                FileAction::KeepOpen
            },
        }
    }

    /// Closes the finished copy run.
    pub fn dismiss_copy(&mut self)
        requires
            old(self).wf(),
            copy_complete(old(self)@),
        ensures
            final(self).wf(),
            final(self)@ == (AppView { dialog: DialogView::Closed, ..old(self)@ }),
    {
        self.dialog = DialogState::Closed;
    }

    /// The difference of the selected row, where it is a file row.
    pub fn selected_diff(&self) -> (r: Option<&FileDiff>)
        ensures
            match r {
                Some(d) => selected_diff_view(self@) == Some(d@),
                None => selected_diff_view(self@) is None,
            },
    {
        let flat = self.tree.flatten();
        match self.selected_row {
            Some(i) => {
                if i < flat.len() {
                    let node = flat[i].1;
                    assert(rows_view(flat@)[i as int] == (flat@[i as int].0 as nat, flat@[i as int].1@));
                    match &node.diff {
                        Some(d) => Some(d),
                        None => None,
                    }
                } else {
                    None
                }
            },
            None => None,
        }
    }

    /// The text of a preview pane that has nothing to show: for the
    /// destination pane of a file missing from the destination, that it is
    /// a new file; otherwise that no preview is available.
    pub fn preview_placeholder(&self, is_source: bool) -> (t: String)
        ensures
            t@ == (if !is_source && (selected_diff_view(self@) matches Some(d) && d.reason is Missing) {
                "New file \u{2014} does not exist in destination"@
            } else {
                "No preview available"@
            }),
    {
        let new_file = match self.selected_diff() {
            Some(d) => match d.reason {
                DiffReason::Missing => true,
                DiffReason::Newer { .. } => false,
            },
            None => false,
        };
        let mut t = String::new();
        if !is_source && new_file {
            t.append("New file \u{2014} does not exist in destination");
        } else {
            t.append("No preview available");
        }
        t
    }

    /// Keeps the preview in step with the selection (see `preview_step`).
    pub fn ensure_preview(&mut self) -> (action: PreviewAction)
        requires
            old(self).wf(),
        ensures
            final(self).wf(),
            preview_step(old(self)@, final(self)@, action_view(action)),
    {
        if !self.show_preview {
            return PreviewAction::Keep;
        }
        let rel = match self.selected_diff() {
            Some(d) => clone_path(&d.rel_path),
            None => {
                self.preview_cached = None;
                return PreviewAction::Clear;
            },
        };
        let shown = match &self.preview_cached {
            Some(p) => compare_paths(p, &rel) == Order::Equal,
            None => false,
        };
        let loading = match &self.preview_loading {
            Some(p) => compare_paths(p, &rel) == Order::Equal,
            None => false,
        };
        if shown || loading {
            return PreviewAction::Keep;
        }
        self.preview_loading = Some(clone_path(&rel));
        PreviewAction::Load(rel)
    }

    /// The previews of `rel` arrived: they are shown, nothing is loading.
    pub fn preview_loaded(&mut self, rel: Vec<String>)
        requires
            old(self).wf(),
        ensures
            final(self).wf(),
            final(self)@ == (AppView { cached: Some(path_view(rel@)), loading: None, ..old(self)@ }),
    {
        self.preview_cached = Some(rel);
        self.preview_loading = None;
    }

    /// The size of the marked paths (see `sizes_of`).
    pub fn selection_size(&self) -> (r: u64)
        requires
            self.wf(),
        ensures
            r == sizes_of(self@.marked, self@.diffs),
    {
        let ghost v = self@;
        proof {
            lemma_sorted_is_distinct(v.marked);
            lemma_sizes_of_bounded(v.marked, v.diffs);
        }
        let mut total: u64 = 0;
        let mut i: usize = 0;
        let n = self.selected.len();
        assert(v.marked.take(0) =~= Seq::<PathModel>::empty());
        while i < n
            invariant
                i <= n,
                n == v.marked.len(),
                self@ == v,
                self.wf(),
                sizes_of(v.marked, v.diffs) <= u64::MAX,
                total == sizes_of(v.marked.take(i as int), v.diffs),
            decreases n - i,
        {
            let p = self.selected.get(i);
            let sz = self.size_of(p);
            assert(v.marked.take(i + 1).drop_last() =~= v.marked.take(i as int));
            proof {
                lemma_sizes_of_prefix(v.marked, v.diffs, i + 1);
            }
            total = total + sz;
            i = i + 1;
        }
        assert(v.marked.take(i as int) =~= v.marked);
        total
    }

    /// The figures of the status bar: how many differences are missing and
    /// how many newer, their total size, and how many paths are marked with
    /// their size.
    /// The three texts of the status bar: the counts, the total size and
    /// the selection (see `counts_text`, `total_text`, `selection_text`).
    pub fn status_texts(&self) -> (r: (String, String, String))
        requires
            self.wf(),
        ensures
            r.0@ == counts_text(count_missing(self@.diffs), count_newer(self@.diffs)),
            r.1@ == total_text(sum_sizes(self@.diffs)),
            r.2@ == selection_text(self@.marked.len(), sizes_of(self@.marked, self@.diffs)),
    {
        let sm = self.status_summary();
        let mut counts = String::new();
        counts.append(" ");
        push_decimal(&mut counts, sm.missing as u128);
        counts.append(" new, ");
        push_decimal(&mut counts, sm.newer as u128);
        counts.append(" modified");
        let mut total = String::new();
        total.append("Total: ");
        let ts = format_size(sm.total_size);
        total.append(ts.as_str());
        let mut sel = String::new();
        if sm.selected_count > 0 {
            push_decimal(&mut sel, sm.selected_count as u128);
            sel.append(" sel (");
            let ss = format_size(sm.selected_size);
            sel.append(ss.as_str());
            sel.append(")");
        } else {
            sel.append("0 sel");
        }
        (counts, total, sel)
    }

    /// The title of the browser for the named source and destination
    /// directories (see `browser_title_text`), with the number of
    /// differences.
    pub fn browser_title(&self, source_name: &str, dest_name: &str) -> (t: String)
        ensures
            t@ == browser_title_text(source_name@, dest_name@, self@.diffs.len()),
    {
        let mut t = String::new();
        t.append(" ");
        t.append(source_name);
        t.append(" \u{2192} ");
        t.append(dest_name);
        t.append(" (");
        push_decimal(&mut t, self.diffs.len() as u128);
        t.append(" files) ");
        t
    }

    /// The title of the copy confirmation (see `confirm_title_text`): the
    /// number of marked paths and their size.
    pub fn confirm_title(&self) -> (t: String)
        requires
            self.wf(),
        ensures
            t@ == confirm_title_text(self@.marked.len(), sizes_of(self@.marked, self@.diffs)),
    {
        let mut t = String::new();
        t.append(" Copy ");
        push_decimal(&mut t, self.selected.len() as u128);
        t.append(" files (");
        let ss = format_size(self.selection_size());
        t.append(ss.as_str());
        t.append(")? ");
        t
    }

    /// The title of the copy run (see `copy_title_text`).
    pub fn copy_title(&self) -> (t: String)
        ensures
            t@ == copy_title_text(copy_complete(self@)),
    {
        let mut t = String::new();
        if self.copy_complete() {
            t.append(" Copy complete (press any key) ");
        } else {
            t.append(" Copying... (ESC to cancel) ");
        }
        t
    }

    pub fn status_summary(&self) -> (s: StatusSummary)
        requires
            self.wf(),
        ensures
            s.missing == count_missing(self@.diffs),
            s.newer == count_newer(self@.diffs),
            s.total_size == sum_sizes(self@.diffs),
            s.selected_count == self@.marked.len(),
            s.selected_size == sizes_of(self@.marked, self@.diffs),
    {
        let ghost ds = self@.diffs;
        let mut missing: usize = 0;
        let mut newer: usize = 0;
        let mut total: u64 = 0;
        let mut i: usize = 0;
        assert(ds.take(0) =~= Seq::<DiffModel>::empty());
        while i < self.diffs.len()
            invariant
                i <= self.diffs@.len(),
                ds == self.diffs@.map_values(|d: FileDiff| d@),
                sum_sizes(ds) <= u64::MAX,
                missing == count_missing(ds.take(i as int)),
                newer == count_newer(ds.take(i as int)),
                missing + newer <= i,
                total == sum_sizes(ds.take(i as int)),
            decreases self.diffs@.len() - i,
        {
            assert(ds.take(i + 1).drop_last() =~= ds.take(i as int));
            assert(ds.take(i + 1).last() == self.diffs@[i as int]@);
            proof {
                lemma_sum_sizes_prefix(ds, i + 1);
            }
            match self.diffs[i].reason {
                DiffReason::Missing => {
                    missing = missing + 1;
                },
                DiffReason::Newer { .. } => {
                    newer = newer + 1;
                },
            }
            total = total + self.diffs[i].size;
            i = i + 1;
        }
        assert(ds.take(i as int) =~= ds);
        let selected_size = self.selection_size();
        StatusSummary {
            missing,
            newer,
            total_size: total,
            selected_count: self.selected.len(),
            selected_size,
        }
    }

    fn node_marked(&self, node: &TreeNode) -> (b: bool)
        requires
            self.wf(),
            file_total(node@) <= usize::MAX,
        ensures
            b == row_marked(self@.marked, node@),
    {
        if node.is_dir {
            let paths = self.collect_file_paths(node);
            let ghost ps = paths@.map_values(|p: Vec<String>| path_view(p@));
            let mut i: usize = 0;
            while i < paths.len()
                invariant
                    i <= paths@.len(),
                    ps == paths@.map_values(|p: Vec<String>| path_view(p@)),
                    ps == file_paths(node@),
                    self.wf(),
                    forall|j: int| 0 <= j < i ==> self@.marked.contains(#[trigger] ps[j]),
                decreases paths@.len() - i,
            {
                assert(ps[i as int] == path_view(paths@[i as int]@));
                if !self.selected.contains(&paths[i]) {
                    assert(!self@.marked.contains(ps[i as int]));
                    assert(!all_marked(self@.marked, ps));
                    return false;
                }
                i = i + 1;
            }
            node.file_count() > 0
        } else {
            self.selected.contains(&node.rel_path)
        }
    }

    /// What each row of the browser shows, in row order.
    pub fn rows(&self) -> (rows: Vec<RowInfo>)
        requires
            self.wf(),
        ensures
            rows@.len() == rows_of(self@).len(),
            forall|i: int| 0 <= i < rows@.len() ==> row_info_matches(#[trigger] rows@[i], rows_of(self@)[i], self@.marked),
    {
        let ghost v = self@;
        let flat = self.tree.flatten();
        let ghost fv = rows_view(flat@);
        proof {
            lemma_rows_bounded(v.tree);
        }
        let mut out: Vec<RowInfo> = Vec::new();
        let mut i: usize = 0;
        while i < flat.len()
            invariant
                i <= flat@.len(),
                fv == rows_view(flat@),
                fv == rows_of(v),
                self@ == v,
                self.wf(),
                out@.len() == i,
                forall|k: int| 0 <= k < fv.len() ==> file_total(#[trigger] fv[k].1) <= file_total(v.tree)
                    && size_total(fv[k].1) <= size_total(v.tree) && crate::tree::wf(fv[k].1),
                forall|k: int| 0 <= k < i ==> row_info_matches(#[trigger] out@[k], fv[k], v.marked),
            decreases flat@.len() - i,
        {
            let (depth, node) = flat[i];
            assert(fv[i as int] == (depth as nat, node@));
            assert(v.diffs.len() == self.diffs@.len());
            assert(self.diffs@.len() == self.diffs.len());
            assert(file_total(fv[i as int].1) <= file_total(v.tree));
            assert(size_total(fv[i as int].1) <= size_total(v.tree));
            let count = node.file_count();
            let size = node.total_size();
            let marked = self.node_marked(node);
            let reason = match &node.diff {
                Some(d) => Some(d.reason.duplicate()),
                None => None,
            };
            let info = RowInfo {
                depth,
                name: node.name.clone(),
                is_dir: node.is_dir,
                expanded: node.expanded,
                file_count: count,
                total_size: size,
                marked,
                reason,
            };
            out.push(info);
            i = i + 1;
        }
        out
    }
}

}
