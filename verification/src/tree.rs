//! The tree of differences shown in the browser: directories and files,
//! children kept in name order.
use vstd::prelude::*;

use crate::scanner::{clone_path, sum_sizes, DiffModel, FileDiff};
use crate::text::{
    chars_lt, compare_str, lemma_chars_lt_total, lemma_chars_lt_transitive, path_view, Order,
};

verus! {

/// A node of the difference tree. Directories hold their children in
/// strictly increasing name order; files hold the difference they stand for.
#[derive(Debug)]
pub struct TreeNode {
    pub name: String,
    pub rel_path: Vec<String>,
    pub is_dir: bool,
    pub expanded: bool,
    pub children: Vec<TreeNode>,
    pub diff: Option<FileDiff>,
}

/// What a `TreeNode` holds, as mathematical values.
pub struct NodeModel {
    pub name: Seq<char>,
    pub rel_path: Seq<Seq<char>>,
    pub is_dir: bool,
    pub expanded: bool,
    pub children: Seq<NodeModel>,
    pub diff: Option<DiffModel>,
}

pub open spec fn empty_model() -> NodeModel {
    NodeModel {
        name: Seq::empty(),
        rel_path: Seq::empty(),
        is_dir: false,
        expanded: false,
        children: Seq::empty(),
        diff: None,
    }
}

pub open spec fn diff_model(d: Option<FileDiff>) -> Option<DiffModel> {
    match d {
        Some(x) => Some(x@),
        None => None,
    }
}

pub open spec fn model_of(n: TreeNode) -> NodeModel
    decreases n,
{
    NodeModel {
        name: n.name@,
        rel_path: path_view(n.rel_path@),
        is_dir: n.is_dir,
        expanded: n.expanded,
        children: Seq::new(
            n.children@.len(),
            |i: int|
                if 0 <= i < n.children@.len() {
                    model_of(n.children@[i])
                } else {
                    empty_model()
                },
        ),
        diff: diff_model(n.diff),
    }
}

impl View for TreeNode {
    type V = NodeModel;

    open spec fn view(&self) -> NodeModel {
        model_of(*self)
    }
}

/// The children's names strictly increase.
pub open spec fn names_sorted(s: Seq<NodeModel>) -> bool {
    forall|i: int, j: int| 0 <= i < j < s.len() ==> chars_lt(#[trigger] s[i].name, #[trigger] s[j].name)
}

/// Every directory of the tree keeps its children in strictly increasing
/// name order and holds no difference of its own.
pub open spec fn wf(m: NodeModel) -> bool
    decreases m,
{
    &&& m.is_dir ==> m.diff is None
    &&& names_sorted(m.children)
    &&& forall|i: int| 0 <= i < m.children.len() ==> wf(#[trigger] m.children[i])
}

/// The root of an empty tree.
pub open spec fn root_model() -> NodeModel {
    NodeModel {
        name: Seq::empty(),
        rel_path: Seq::empty(),
        is_dir: true,
        expanded: true,
        children: Seq::empty(),
        diff: None,
    }
}

/// A file node for difference `d`.
pub open spec fn file_leaf(name: Seq<char>, d: DiffModel) -> NodeModel {
    NodeModel {
        name: name,
        rel_path: d.rel_path,
        is_dir: false,
        expanded: false,
        children: Seq::empty(),
        diff: Some(d),
    }
}

/// A new, expanded, empty directory node.
pub open spec fn dir_node(name: Seq<char>, rel_path: Seq<Seq<char>>) -> NodeModel {
    NodeModel {
        name: name,
        rel_path: rel_path,
        is_dir: true,
        expanded: true,
        children: Seq::empty(),
        diff: None,
    }
}

/// Where a child named `name` stands or would stand: the number of leading
/// children whose names sort before `name`.
pub open spec fn name_slot(s: Seq<NodeModel>, name: Seq<char>) -> nat
    decreases s.len(),
{
    if s.len() == 0 {
        0
    } else if chars_lt(s[0].name, name) {
        1 + name_slot(s.drop_first(), name)
    } else {
        0
    }
}

/// Whether a child named `name` is present, at its slot.
pub open spec fn has_child(s: Seq<NodeModel>, name: Seq<char>) -> bool {
    name_slot(s, name) < s.len() && s[name_slot(s, name) as int].name == name
}

/// The tree after inserting difference `d` at path `comps` below `m`: the
/// directories along the path are created where missing (expanded, with the
/// path so far as their relative path), and a file node for `d` is added
/// unless a node of that name already stands there, in which case nothing
/// changes at the last step.
pub open spec fn insert_at(m: NodeModel, comps: Seq<Seq<char>>, d: DiffModel) -> NodeModel
    decreases comps.len(),
{
    if comps.len() == 0 {
        m
    } else {
        let name = comps[0];
        let pos = name_slot(m.children, name) as int;
        let found = has_child(m.children, name);
        if comps.len() == 1 {
            if found {
                m
            } else {
                NodeModel { children: m.children.insert(pos, file_leaf(name, d)), ..m }
            }
        } else {
            let child = if found {
                m.children[pos]
            } else {
                dir_node(name, m.rel_path.push(name))
            };
            let updated = insert_at(child, comps.drop_first(), d);
            NodeModel {
                children: if found {
                    m.children.update(pos, updated)
                } else {
                    m.children.insert(pos, updated)
                },
                ..m
            }
        }
    }
}

pub proof fn lemma_name_slot(s: Seq<NodeModel>, name: Seq<char>)
    ensures
        name_slot(s, name) <= s.len(),
        forall|i: int| 0 <= i < name_slot(s, name) ==> chars_lt(#[trigger] s[i].name, name),
        name_slot(s, name) < s.len() ==> !chars_lt(s[name_slot(s, name) as int].name, name),
    decreases s.len(),
{
    if s.len() > 0 && chars_lt(s[0].name, name) {
        lemma_name_slot(s.drop_first(), name);
        assert forall|i: int| 0 <= i < name_slot(s, name) implies chars_lt(#[trigger] s[i].name, name) by {
            if i > 0 {
                assert(s[i] == s.drop_first()[i - 1]);
            }
        }
    }
}

/// Putting `x` at the slot of its name keeps the names sorted, when no child
/// of that name exists.
proof fn lemma_insert_sorted(s: Seq<NodeModel>, x: NodeModel)
    requires
        names_sorted(s),
        !has_child(s, x.name),
    ensures
        names_sorted(s.insert(name_slot(s, x.name) as int, x)),
{
    lemma_name_slot(s, x.name);
    let pos = name_slot(s, x.name) as int;
    let t = s.insert(pos, x);
    if pos < s.len() {
        lemma_chars_lt_total(s[pos].name, x.name);
    }
    assert forall|i: int, j: int| 0 <= i < j < t.len() implies chars_lt(#[trigger] t[i].name, #[trigger] t[j].name) by {
        if j < pos {
        } else if j == pos {
        } else if i < pos {
            // t[i] = s[i] < x <= s[pos] <= s[j-1]
            if pos < j - 1 {
                lemma_chars_lt_transitive(s[i].name, s[pos].name, s[j - 1].name);
            }
            assert(chars_lt(s[i].name, s[j - 1].name));
        } else if i == pos {
            if pos < j - 1 {
                lemma_chars_lt_transitive(x.name, s[pos].name, s[j - 1].name);
            }
        } else {
        }
    }
}

/// Replacing a child by one of the same name keeps the names sorted.
proof fn lemma_update_sorted(s: Seq<NodeModel>, pos: int, x: NodeModel)
    requires
        names_sorted(s),
        0 <= pos < s.len(),
        s[pos].name == x.name,
    ensures
        names_sorted(s.update(pos, x)),
{
    let t = s.update(pos, x);
    assert forall|i: int, j: int| 0 <= i < j < t.len() implies chars_lt(#[trigger] t[i].name, #[trigger] t[j].name) by {
        assert(s[i].name == t[i].name);
        assert(s[j].name == t[j].name);
    }
}

pub proof fn lemma_insert_at_wf(m: NodeModel, comps: Seq<Seq<char>>, d: DiffModel)
    requires
        wf(m),
    ensures
        wf(insert_at(m, comps, d)),
        insert_at(m, comps, d).name == m.name,
    decreases comps.len(),
{
    if comps.len() > 0 {
        let name = comps[0];
        let pos = name_slot(m.children, name) as int;
        let found = has_child(m.children, name);
        lemma_name_slot(m.children, name);
        let r = insert_at(m, comps, d);
        if comps.len() == 1 {
            if !found {
                lemma_insert_sorted(m.children, file_leaf(name, d));
                assert(wf(file_leaf(name, d)));
                assert forall|i: int| 0 <= i < r.children.len() implies #[trigger] wf(r.children[i]) by {
                    if i < pos {
                        assert(r.children[i] == m.children[i]);
                    } else if i == pos {
                    } else {
                        assert(r.children[i] == m.children[i - 1]);
                    }
                }
            }
        } else {
            let child = if found { m.children[pos] } else { dir_node(name, m.rel_path.push(name)) };
            if found {
                assert(0 <= pos < m.children.len());
                assert(wf(m.children[pos]));
            } else {
                assert(wf(dir_node(name, m.rel_path.push(name))));
            }
            lemma_insert_at_wf(child, comps.drop_first(), d);
            let updated = insert_at(child, comps.drop_first(), d);
            if found {
                lemma_update_sorted(m.children, pos, updated);
                assert forall|i: int| 0 <= i < r.children.len() implies #[trigger] wf(r.children[i]) by {
                    if i != pos {
                        assert(r.children[i] == m.children[i]);
                        assert(wf(m.children[i]));
                    }
                }
            } else {
                lemma_insert_sorted(m.children, updated);
                assert forall|i: int| 0 <= i < r.children.len() implies #[trigger] wf(r.children[i]) by {
                    if i < pos {
                        assert(r.children[i] == m.children[i]);
                    } else if i == pos {
                    } else {
                        assert(r.children[i] == m.children[i - 1]);
                    }
                }
            }
        }
    }
}

/// The rows of the browser below node `m` at `depth`: the node itself, then,
/// for an expanded directory, the rows of each child in order, one level deeper.
pub open spec fn flat_node(m: NodeModel, depth: nat) -> Seq<(nat, NodeModel)>
    decreases m, 1nat,
{
    seq![(depth, m)] + if m.is_dir && m.expanded {
        flat_seq(m.children, depth + 1)
    } else {
        Seq::empty()
    }
}

/// The rows of the nodes of `s`, in order, each at `depth`.
pub open spec fn flat_seq(s: Seq<NodeModel>, depth: nat) -> Seq<(nat, NodeModel)>
    decreases s, 0nat,
{
    if s.len() == 0 {
        Seq::empty()
    } else {
        flat_seq(s.drop_last(), depth) + flat_node(s.last(), depth)
    }
}

/// The rows of the browser: every child of the root at depth 0, with the
/// rows below it.
pub open spec fn flattened(m: NodeModel) -> Seq<(nat, NodeModel)> {
    flat_seq(m.children, 0)
}

/// The rows a flattening produced, as (depth, node model) pairs.
pub open spec fn rows_view<'a>(v: Seq<(usize, &'a TreeNode)>) -> Seq<(nat, NodeModel)> {
    v.map_values(|e: (usize, &'a TreeNode)| (e.0 as nat, e.1@))
}

/// Node `m` with the expansion of every directory whose relative path is `p`
/// flipped; below such a directory nothing else changes.
pub open spec fn toggled(m: NodeModel, p: Seq<Seq<char>>) -> NodeModel
    decreases m,
{
    if m.rel_path == p && m.is_dir {
        NodeModel { expanded: !m.expanded, ..m }
    } else {
        NodeModel {
            children: Seq::new(
                m.children.len(),
                |i: int|
                    if 0 <= i < m.children.len() {
                        toggled(m.children[i], p)
                    } else {
                        empty_model()
                    },
            ),
            ..m
        }
    }
}

/// The number of files below `m`: 1 for a file, the children's total for a
/// directory.
pub open spec fn file_total(m: NodeModel) -> nat
    decreases m, 1nat,
{
    if !m.is_dir {
        1
    } else {
        file_total_seq(m.children)
    }
}

pub open spec fn file_total_seq(s: Seq<NodeModel>) -> nat
    decreases s, 0nat,
{
    if s.len() == 0 {
        0
    } else {
        file_total_seq(s.drop_last()) + file_total(s.last())
    }
}

/// The bytes below `m`: the size of its difference where it has one, else
/// the children's total.
pub open spec fn size_total(m: NodeModel) -> nat
    decreases m, 1nat,
{
    match m.diff {
        Some(d) => d.size as nat,
        None => size_total_seq(m.children),
    }
}

pub open spec fn size_total_seq(s: Seq<NodeModel>) -> nat
    decreases s, 0nat,
{
    if s.len() == 0 {
        0
    } else {
        size_total_seq(s.drop_last()) + size_total(s.last())
    }
}

/// The tree built from `diffs`, inserted in order into an empty root.
pub open spec fn built(diffs: Seq<DiffModel>) -> NodeModel
    decreases diffs.len(),
{
    if diffs.len() == 0 {
        root_model()
    } else {
        let d = diffs.last();
        insert_at(built(diffs.drop_last()), d.rel_path, d)
    }
}

proof fn lemma_file_total_prefix(s: Seq<NodeModel>, j: int)
    requires
        0 <= j <= s.len(),
    ensures
        file_total_seq(s.take(j)) <= file_total_seq(s),
    decreases s.len(),
{
    if j < s.len() {
        assert(s.drop_last().take(j) =~= s.take(j));
        lemma_file_total_prefix(s.drop_last(), j);
    } else {
        assert(s.take(j) =~= s);
    }
}

proof fn lemma_size_total_prefix(s: Seq<NodeModel>, j: int)
    requires
        0 <= j <= s.len(),
    ensures
        size_total_seq(s.take(j)) <= size_total_seq(s),
    decreases s.len(),
{
    if j < s.len() {
        assert(s.drop_last().take(j) =~= s.take(j));
        lemma_size_total_prefix(s.drop_last(), j);
    } else {
        assert(s.take(j) =~= s);
    }
}

proof fn lemma_totals_concat(a: Seq<NodeModel>, b: Seq<NodeModel>)
    ensures
        file_total_seq(a + b) == file_total_seq(a) + file_total_seq(b),
        size_total_seq(a + b) == size_total_seq(a) + size_total_seq(b),
    decreases b.len(),
{
    if b.len() == 0 {
        assert(a + b =~= a);
    } else {
        lemma_totals_concat(a, b.drop_last());
        assert((a + b).drop_last() =~= a + b.drop_last());
        assert((a + b).last() == b.last());
    }
}

proof fn lemma_totals_single(x: NodeModel)
    ensures
        file_total_seq(seq![x]) == file_total(x),
        size_total_seq(seq![x]) == size_total(x),
{
    let s = seq![x];
    assert(s.drop_last() =~= Seq::<NodeModel>::empty());
    assert(s.last() == x);
    assert(file_total_seq(s.drop_last()) == 0);
    assert(size_total_seq(s.drop_last()) == 0);
}

pub proof fn lemma_totals_update(s: Seq<NodeModel>, pos: int, x: NodeModel)
    requires
        0 <= pos < s.len(),
    ensures
        file_total_seq(s.update(pos, x)) + file_total(s[pos]) == file_total_seq(s) + file_total(x),
        size_total_seq(s.update(pos, x)) + size_total(s[pos]) == size_total_seq(s) + size_total(x),
{
    let a = s.take(pos);
    let c = s.skip(pos + 1);
    assert(s =~= a + seq![s[pos]] + c);
    assert(s.update(pos, x) =~= a + seq![x] + c);
    lemma_totals_concat(a + seq![s[pos]], c);
    lemma_totals_concat(a, seq![s[pos]]);
    lemma_totals_concat(a + seq![x], c);
    lemma_totals_concat(a, seq![x]);
    lemma_totals_single(x);
    lemma_totals_single(s[pos]);
}

pub proof fn lemma_totals_insert(s: Seq<NodeModel>, pos: int, x: NodeModel)
    requires
        0 <= pos <= s.len(),
    ensures
        file_total_seq(s.insert(pos, x)) == file_total_seq(s) + file_total(x),
        size_total_seq(s.insert(pos, x)) == size_total_seq(s) + size_total(x),
{
    let a = s.take(pos);
    let c = s.skip(pos);
    assert(s =~= a + c);
    assert(s.insert(pos, x) =~= a + seq![x] + c);
    lemma_totals_concat(a, c);
    lemma_totals_concat(a + seq![x], c);
    lemma_totals_concat(a, seq![x]);
    lemma_totals_single(x);
}

/// Inserting one difference adds at most one file, and at most its size.
pub proof fn lemma_insert_at_totals(m: NodeModel, comps: Seq<Seq<char>>, d: DiffModel)
    ensures
        file_total(insert_at(m, comps, d)) <= file_total(m) + 1,
        size_total(insert_at(m, comps, d)) <= size_total(m) + d.size,
    decreases comps.len(),
{
    if comps.len() > 0 {
        let name = comps[0];
        let pos = name_slot(m.children, name) as int;
        let found = has_child(m.children, name);
        lemma_name_slot(m.children, name);
        if comps.len() == 1 {
            if !found {
                lemma_totals_insert(m.children, pos, file_leaf(name, d));
            }
        } else {
            let child = if found { m.children[pos] } else { dir_node(name, m.rel_path.push(name)) };
            lemma_insert_at_totals(child, comps.drop_first(), d);
            let updated = insert_at(child, comps.drop_first(), d);
            if found {
                lemma_totals_update(m.children, pos, updated);
            } else {
                lemma_totals_insert(m.children, pos, updated);
                assert(file_total_seq(dir_node(name, m.rel_path.push(name)).children) == 0);
            }
        }
    }
}

/// A tree built from `diffs` has at most one file per difference and at
/// most their total size.
pub proof fn lemma_built_totals(diffs: Seq<DiffModel>)
    ensures
        file_total(built(diffs)) <= diffs.len(),
        size_total(built(diffs)) <= sum_sizes(diffs),
        built(diffs).is_dir,
    decreases diffs.len(),
{
    if diffs.len() == 0 {
        assert(file_total_seq(root_model().children) == 0);
        assert(size_total_seq(root_model().children) == 0);
    } else {
        lemma_built_totals(diffs.drop_last());
        lemma_insert_at_totals(built(diffs.drop_last()), diffs.last().rel_path, diffs.last());
    }
}

proof fn lemma_flat_node_bounded(m: NodeModel, depth: nat)
    requires
        wf(m),
    ensures
        forall|i: int| 0 <= i < flat_node(m, depth).len() ==> file_total(#[trigger] flat_node(m, depth)[i].1) <= file_total(m)
            && size_total(flat_node(m, depth)[i].1) <= size_total(m) && wf(flat_node(m, depth)[i].1),
    decreases m, 1nat,
{
    let rows = flat_node(m, depth);
    if m.is_dir && m.expanded {
        lemma_flat_seq_bounded(m.children, depth + 1);
        let inner = flat_seq(m.children, depth + 1);
        assert forall|i: int| 0 <= i < rows.len() implies file_total(#[trigger] rows[i].1) <= file_total(m)
            && size_total(rows[i].1) <= size_total(m) && wf(rows[i].1) by {
            if i > 0 {
                assert(rows[i] == inner[i - 1]);
            }
        }
    } else {
        assert(rows =~= seq![(depth, m)]);
    }
}

proof fn lemma_flat_seq_bounded(s: Seq<NodeModel>, depth: nat)
    requires
        forall|j: int| 0 <= j < s.len() ==> wf(#[trigger] s[j]),
    ensures
        forall|i: int| 0 <= i < flat_seq(s, depth).len() ==> file_total(#[trigger] flat_seq(s, depth)[i].1) <= file_total_seq(s)
            && size_total(flat_seq(s, depth)[i].1) <= size_total_seq(s) && wf(flat_seq(s, depth)[i].1),
    decreases s, 0nat,
{
    if s.len() > 0 {
        let a = flat_seq(s.drop_last(), depth);
        let b = flat_node(s.last(), depth);
        assert(wf(s[s.len() - 1]));
        lemma_flat_seq_bounded(s.drop_last(), depth);
        lemma_flat_node_bounded(s.last(), depth);
        let rows = flat_seq(s, depth);
        assert(rows == a + b);
        assert forall|i: int| 0 <= i < rows.len() implies file_total(#[trigger] rows[i].1) <= file_total_seq(s)
            && size_total(rows[i].1) <= size_total_seq(s) && wf(rows[i].1) by {
            if i < a.len() {
                assert(rows[i] == a[i]);
            } else {
                assert(rows[i] == b[i - a.len()]);
            }
        }
    }
}

/// Every row of a well-formed tree stands for a well-formed node holding at
/// most the files and bytes of the whole tree.
pub proof fn lemma_rows_bounded(m: NodeModel)
    requires
        wf(m),
        m.is_dir,
    ensures
        forall|i: int| 0 <= i < flattened(m).len() ==> file_total(#[trigger] flattened(m)[i].1) <= file_total(m)
            && size_total(flattened(m)[i].1) <= size_total(m) && wf(flattened(m)[i].1),
{
    lemma_flat_seq_bounded(m.children, 0);
}

/// The children of `s`, each toggled for path `p`.
pub open spec fn toggled_seq(s: Seq<NodeModel>, p: Seq<Seq<char>>) -> Seq<NodeModel> {
    Seq::new(s.len(), |i: int| if 0 <= i < s.len() { toggled(s[i], p) } else { empty_model() })
}

/// Toggling changes neither the files nor the bytes below a node.
pub proof fn lemma_toggled_totals(m: NodeModel, p: Seq<Seq<char>>)
    ensures
        file_total(toggled(m, p)) == file_total(m),
        size_total(toggled(m, p)) == size_total(m),
        toggled(m, p).is_dir == m.is_dir,
        toggled(m, p).diff == m.diff,
    decreases m, 1nat,
{
    if !(m.rel_path == p && m.is_dir) {
        lemma_toggled_seq_totals(m.children, p);
        assert(toggled(m, p).children =~= toggled_seq(m.children, p));
    }
}

proof fn lemma_toggled_seq_totals(s: Seq<NodeModel>, p: Seq<Seq<char>>)
    ensures
        file_total_seq(toggled_seq(s, p)) == file_total_seq(s),
        size_total_seq(toggled_seq(s, p)) == size_total_seq(s),
    decreases s, 0nat,
{
    if s.len() > 0 {
        lemma_toggled_seq_totals(s.drop_last(), p);
        lemma_toggled_totals(s.last(), p);
        assert(toggled_seq(s, p).drop_last() =~= toggled_seq(s.drop_last(), p));
        assert(toggled_seq(s, p).last() == toggled(s.last(), p));
    }
}

/// Expanding or collapsing the same directory twice gives back the tree
/// it started from.
pub proof fn law_toggle_twice_restores(m: NodeModel, p: Seq<Seq<char>>)
    ensures
        toggled(toggled(m, p), p) == m,
    decreases m,
{
    let t = toggled(m, p);
    if m.rel_path == p && m.is_dir {
        assert(toggled(t, p) == m);
    } else {
        assert forall|i: int| 0 <= i < m.children.len() implies #[trigger] toggled(t, p).children[i] == m.children[i] by {
            law_toggle_twice_restores(m.children[i], p);
        }
        assert(toggled(t, p).children =~= m.children);
    }
}

pub proof fn lemma_toggled_wf(m: NodeModel, p: Seq<Seq<char>>)
    requires
        wf(m),
    ensures
        wf(toggled(m, p)),
        toggled(m, p).name == m.name,
    decreases m,
{
    if !(m.rel_path == p && m.is_dir) {
        let t = toggled(m, p);
        assert forall|i: int| 0 <= i < t.children.len() implies wf(#[trigger] t.children[i])
            && t.children[i].name == m.children[i].name by {
            lemma_toggled_wf(m.children[i], p);
        }
        assert forall|i: int, j: int| 0 <= i < j < t.children.len() implies chars_lt(
            #[trigger] t.children[i].name,
            #[trigger] t.children[j].name,
        ) by {
            lemma_toggled_wf(m.children[i], p);
            lemma_toggled_wf(m.children[j], p);
        }
    }
}

impl TreeNode {
    /// The root of an empty tree: an expanded directory with no name, no
    /// relative path and no children.
    pub fn new_root() -> (r: Self)
        ensures
            r@ == root_model(),
            wf(r@),
    {
        let r = TreeNode {
            name: String::new(),
            rel_path: Vec::new(),
            is_dir: true,
            expanded: true,
            children: Vec::new(),
            diff: None,
        };
        assert(r@.children =~= Seq::<NodeModel>::empty());
        assert(r@.rel_path =~= Seq::<Seq<char>>::empty());
        r
    }

    /// The slot of `name` among the children, found by a scan in name order.
    fn find_slot(&self, name: &String) -> (pos: usize)
        ensures
            pos == name_slot(self@.children, name@),
    {
        let ghost s = self@.children;
        let mut pos: usize = 0;
        assert(s.skip(0) =~= s);
        while pos < self.children.len()
            && compare_str(self.children[pos].name.as_str(), name.as_str()) == Order::Less
            invariant
                pos <= self.children@.len(),
                s == self@.children,
                name_slot(s, name@) == pos + name_slot(s.skip(pos as int), name@),
            decreases self.children@.len() - pos,
        {
            assert(s.skip(pos as int).drop_first() =~= s.skip(pos + 1));
            assert(s.skip(pos as int)[0] == s[pos as int]);
            assert(s[pos as int] == model_of(self.children@[pos as int]));
            pos = pos + 1;
        }
        proof {
            if pos < s.len() {
                assert(s.skip(pos as int)[0] == s[pos as int]);
                assert(s[pos as int] == model_of(self.children@[pos as int]));
            } else {
                assert(s.skip(pos as int).len() == 0);
            }
        }
        pos
    }

    fn insert_recursive(&mut self, comps: &Vec<String>, k: usize, diff: FileDiff)
        requires
            k <= comps@.len(),
        ensures
            final(self)@ == insert_at(old(self)@, path_view(comps@).skip(k as int), diff@),
        decreases comps@.len() - k,
    {
        let ghost comps_v = path_view(comps@).skip(k as int);
        if k >= comps.len() {
            return;
        }
        assert(comps_v[0] == comps@[k as int]@);
        let name = &comps[k];
        let pos = self.find_slot(name);
        proof {
            lemma_name_slot(self@.children, name@);
            if pos < self.children@.len() {
                assert(self@.children[pos as int] == model_of(self.children@[pos as int]));
            }
        }
        let found = pos < self.children.len() && self.children[pos].name == *name;
        assert(found == has_child(self@.children, name@));
        let ghost before = self@;
        assert(comps_v.len() == comps@.len() - k);
        if k + 1 == comps.len() {
            if !found {
                let rp = clone_path(&diff.rel_path);
                let leaf = TreeNode {
                    name: name.clone(),
                    rel_path: rp,
                    is_dir: false,
                    expanded: false,
                    children: Vec::new(),
                    diff: Some(diff),
                };
                assert(leaf@.children =~= Seq::<NodeModel>::empty());
                assert(leaf@ == file_leaf(name@, diff@));
                self.children.insert(pos, leaf);
                assert(self@.children =~= before.children.insert(pos as int, file_leaf(name@, diff@)));
                assert(self@ == NodeModel {
                    children: before.children.insert(pos as int, file_leaf(name@, diff@)),
                    ..before
                });
            }
        } else {
            if !found {
                let mut rp = clone_path(&self.rel_path);
                rp.push(name.clone());
                let dir = TreeNode {
                    name: name.clone(),
                    rel_path: rp,
                    is_dir: true,
                    expanded: true,
                    children: Vec::new(),
                    diff: None,
                };
                assert(dir@.children =~= Seq::<NodeModel>::empty());
                assert(path_view(rp@) =~= before.rel_path.push(name@));
                assert(dir@ == dir_node(name@, before.rel_path.push(name@)));
                self.children.insert(pos, dir);
                assert(self@.children =~= before.children.insert(pos as int, dir@));
            }
            let ghost mid = self@;
            let ghost child_before = if found {
                before.children[pos as int]
            } else {
                dir_node(name@, before.rel_path.push(name@))
            };
            assert(mid.children[pos as int] == model_of(self.children@[pos as int]));
            assert(mid.children[pos as int] == child_before);
            let child = &mut self.children[pos];
            child.insert_recursive(comps, k + 1, diff);
            assert(path_view(comps@).skip(k + 1) =~= comps_v.drop_first());
            let ghost updated = insert_at(child_before, comps_v.drop_first(), diff@);
            assert(self.children@[pos as int]@ == updated);
            if found {
                assert(self@.children =~= before.children.update(pos as int, updated));
            } else {
                assert(self@.children =~= before.children.insert(pos as int, updated));
            }
            assert(self@ == NodeModel {
                children: if found {
                    before.children.update(pos as int, updated)
                } else {
                    before.children.insert(pos as int, updated)
                },
                ..before
            });
        }
    }

    /// Adds the difference `diff` at its relative path, creating the
    /// directories along it.
    pub fn insert(&mut self, diff: FileDiff)
        ensures
            final(self)@ == insert_at(old(self)@, diff@.rel_path, diff@),
            wf(old(self)@) ==> wf(final(self)@),
    {
        proof {
            if wf(self@) {
                lemma_insert_at_wf(self@, diff@.rel_path, diff@);
            }
        }
        let comps = clone_path(&diff.rel_path);
        assert(path_view(comps@).skip(0) =~= diff@.rel_path);
        self.insert_recursive(&comps, 0, diff);
    }

    fn flatten_recursive<'a>(node: &'a TreeNode, depth: usize, result: &mut Vec<(usize, &'a TreeNode)>)
        requires
            old(result)@.len() >= depth,
        ensures
            rows_view(final(result)@) == rows_view(old(result)@) + flat_node(node@, depth as nat),
            final(result)@.len() > old(result)@.len(),
        decreases node,
    {
        let ghost start = rows_view(result@);
        result.push((depth, node));
        assert(rows_view(result@) =~= start + seq![(depth as nat, node@)]);
        if node.is_dir && node.expanded {
            let ghost m = node@;
            let mut i: usize = 0;
            assert(m.children.take(0) =~= Seq::<NodeModel>::empty());
            while i < node.children.len()
                invariant
                    i <= node.children@.len(),
                    m == node@,
                    result@.len() >= depth + 1,
                    rows_view(result@) == start + seq![(depth as nat, m)] + flat_seq(
                        m.children.take(i as int),
                        depth as nat + 1,
                    ),
                decreases node.children@.len() - i,
            {
                assert(m.children[i as int] == model_of(node.children@[i as int]));
                assert(m.children.take(i + 1).drop_last() =~= m.children.take(i as int));
                assert(depth + 1 <= result.len());
                Self::flatten_recursive(&node.children[i], depth + 1, result);
                i = i + 1;
            }
            assert(m.children.take(i as int) =~= m.children);
        } else {
            assert(flat_node(node@, depth as nat) =~= seq![(depth as nat, node@)]);
        }
    }

    /// The rows of the browser, each with its depth: every child of this
    /// node and, below expanded directories, their children, in name order.
    pub fn flatten(&self) -> (rows: Vec<(usize, &TreeNode)>)
        ensures
            rows_view(rows@) == flattened(self@),
    {
        let mut result: Vec<(usize, &TreeNode)> = Vec::new();
        let ghost m = self@;
        let mut i: usize = 0;
        assert(rows_view(result@) =~= Seq::<(nat, NodeModel)>::empty());
        assert(m.children.take(0) =~= Seq::<NodeModel>::empty());
        while i < self.children.len()
            invariant
                i <= self.children@.len(),
                m == self@,
                rows_view(result@) == flat_seq(m.children.take(i as int), 0),
            decreases self.children@.len() - i,
        {
            assert(m.children[i as int] == model_of(self.children@[i as int]));
            assert(m.children.take(i + 1).drop_last() =~= m.children.take(i as int));
            Self::flatten_recursive(&self.children[i], 0, &mut result);
            i = i + 1;
        }
        assert(m.children.take(i as int) =~= m.children);
        result
    }

    /// Flips the expansion of the directory whose relative path is `rel_path`.
    pub fn toggle_expand(&mut self, rel_path: &Vec<String>)
        ensures
            final(self)@ == toggled(old(self)@, path_view(rel_path@)),
        decreases old(self)@,
    {
        let ghost p = path_view(rel_path@);
        if self.is_dir && crate::text::compare_paths(&self.rel_path, rel_path) == Order::Equal {
            self.expanded = !self.expanded;
            return;
        }
        let ghost before = self@;
        let mut i: usize = 0;
        while i < self.children.len()
            invariant
                i <= self.children@.len(),
                self.children@.len() == before.children.len(),
                before == old(self)@,
                p == path_view(rel_path@),
                !(before.rel_path == p && before.is_dir),
                self.name == old(self).name,
                self.rel_path == old(self).rel_path,
                self.is_dir == old(self).is_dir,
                self.expanded == old(self).expanded,
                self.diff == old(self).diff,
                forall|j: int| 0 <= j < i ==> #[trigger] self.children@[j]@ == toggled(before.children[j], p),
                forall|j: int| i <= j < self.children@.len() ==> #[trigger] self.children@[j] == old(self).children@[j],
            decreases self.children@.len() - i,
        {
            assert(self.children@[i as int] == old(self).children@[i as int]);
            assert(before.children[i as int] == model_of(old(self).children@[i as int]));
            let ghost prev = self.children@;
            let c = &mut self.children[i];
            TreeNode::toggle_expand(c, rel_path);
            assert(self.children@[i as int]@ == toggled(before.children[i as int], p));
            assert forall|j: int| 0 <= j < i + 1 implies #[trigger] self.children@[j]@ == toggled(before.children[j], p) by {
                if j < i {
                    assert(self.children@[j] == prev[j]);
                }
            }
            assert forall|j: int| i + 1 <= j < self.children@.len() implies #[trigger] self.children@[j] == old(self).children@[j] by {
                assert(self.children@[j] == prev[j]);
            }
            i = i + 1;
        }
        assert forall|j: int| 0 <= j < before.children.len() implies #[trigger] self@.children[j] == toggled(before, p).children[j] by {
            assert(self@.children[j] == model_of(self.children@[j]));
            assert(self.children@[j]@ == toggled(before.children[j], p));
            assert(toggled(before, p).children[j] == toggled(before.children[j], p));
        }
        assert(self@.children =~= toggled(before, p).children);
    }

    /// The number of files at or below this node.
    pub fn file_count(&self) -> (r: usize)
        requires
            file_total(self@) <= usize::MAX,
        ensures
            r == file_total(self@),
        decreases self,
    {
        if !self.is_dir {
            return 1;
        }
        let ghost m = self@;
        let mut total: usize = 0;
        let mut i: usize = 0;
        assert(m.children.take(0) =~= Seq::<NodeModel>::empty());
        while i < self.children.len()
            invariant
                i <= self.children@.len(),
                m == self@,
                m.is_dir,
                file_total(m) <= usize::MAX,
                total == file_total_seq(m.children.take(i as int)),
            decreases self.children@.len() - i,
        {
            assert(m.children[i as int] == model_of(self.children@[i as int]));
            assert(m.children.take(i + 1).drop_last() =~= m.children.take(i as int));
            proof {
                lemma_file_total_prefix(m.children, i + 1);
            }
            let c = self.children[i].file_count();
            total = total + c;
            i = i + 1;
        }
        assert(m.children.take(i as int) =~= m.children);
        total
    }

    /// The bytes of all differences at or below this node.
    pub fn total_size(&self) -> (r: u64)
        requires
            size_total(self@) <= u64::MAX,
        ensures
            r == size_total(self@),
        decreases self,
    {
        if let Some(d) = &self.diff {
            return d.size;
        }
        let ghost m = self@;
        let mut total: u64 = 0;
        let mut i: usize = 0;
        assert(m.children.take(0) =~= Seq::<NodeModel>::empty());
        while i < self.children.len()
            invariant
                i <= self.children@.len(),
                m == self@,
                m.diff is None,
                size_total(m) <= u64::MAX,
                total == size_total_seq(m.children.take(i as int)),
            decreases self.children@.len() - i,
        {
            assert(m.children[i as int] == model_of(self.children@[i as int]));
            assert(m.children.take(i + 1).drop_last() =~= m.children.take(i as int));
            proof {
                lemma_size_total_prefix(m.children, i + 1);
            }
            let c = self.children[i].total_size();
            total = total + c;
            i = i + 1;
        }
        assert(m.children.take(i as int) =~= m.children);
        total
    }
}

/// The difference tree of `diffs`: each inserted in order into an empty root.
pub fn build_tree(diffs: &[FileDiff]) -> (tree: TreeNode)
    ensures
        tree@ == built(diffs@.map_values(|d: FileDiff| d@)),
        wf(tree@),
{
    let ghost ds = diffs@.map_values(|d: FileDiff| d@);
    let mut tree = TreeNode::new_root();
    let mut i: usize = 0;
    assert(ds.take(0) =~= Seq::<DiffModel>::empty());
    while i < diffs.len()
        invariant
            i <= diffs@.len(),
            ds == diffs@.map_values(|d: FileDiff| d@),
            tree@ == built(ds.take(i as int)),
            wf(tree@),
        decreases diffs@.len() - i,
    {
        let d = diffs[i].duplicate();
        assert(ds.take(i + 1).drop_last() =~= ds.take(i as int));
        assert(ds.take(i + 1).last() == d@);
        tree.insert(d);
        i = i + 1;
    }
    assert(ds.take(i as int) =~= ds);
    tree
}

}
