//! Where the nodes of the difference tree stand: following a relative path
//! from the root, child by child, and what building the tree puts there.
use vstd::prelude::*;

use crate::scanner::{sum_sizes, DiffModel};
use crate::tree::{
    built, names_sorted, toggled, flat_node, flat_seq, flattened, dir_node, file_leaf, file_total, file_total_seq, has_child, insert_at, lemma_insert_at_wf,
    lemma_name_slot, lemma_totals_insert, lemma_totals_update, name_slot, root_model, size_total,
    size_total_seq, wf, NodeModel,
};
use crate::text::{
    path_lt, chars_lt, lemma_chars_lt_asymmetric, lemma_chars_lt_irreflexive, lemma_chars_lt_total,
    lemma_chars_lt_transitive,
};

verus! {

/// The node reached from `m` by following the names of `c`, one child per
/// component; `None` where some component names no child.
pub open spec fn reach(m: NodeModel, c: Seq<Seq<char>>) -> Option<NodeModel>
    decreases c.len(),
{
    if c.len() == 0 {
        Some(m)
    } else if has_child(m.children, c[0]) {
        reach(m.children[name_slot(m.children, c[0]) as int], c.drop_first())
    } else {
        None
    }
}

/// Whether path `a` is `b` or leads to it.
pub open spec fn is_prefix(a: Seq<Seq<char>>, b: Seq<Seq<char>>) -> bool {
    a.len() <= b.len() && b.take(a.len() as int) == a
}

/// The slot of a name is the one index before which every name sorts lower
/// and at which the name does not.
proof fn lemma_slot_unique(s: Seq<NodeModel>, nm: Seq<char>, j: int)
    requires
        0 <= j <= s.len(),
        forall|i: int| 0 <= i < j ==> chars_lt(#[trigger] s[i].name, nm),
        j < s.len() ==> !chars_lt(s[j].name, nm),
    ensures
        name_slot(s, nm) == j,
{
    lemma_name_slot(s, nm);
    let ns = name_slot(s, nm) as int;
    if j < ns {
        assert(chars_lt(s[j].name, nm));
    } else if j > ns {
        assert(chars_lt(s[ns].name, nm));
    }
}

/// Adding a child of a new name at its slot leaves the lookup of every other
/// name as it was.
proof fn lemma_lookup_after_insert(s: Seq<NodeModel>, x: NodeModel, nm: Seq<char>)
    requires
        !has_child(s, x.name),
        x.name != nm,
    ensures
        has_child(s.insert(name_slot(s, x.name) as int, x), nm) == has_child(s, nm),
        has_child(s, nm) ==> s.insert(name_slot(s, x.name) as int, x)[name_slot(
            s.insert(name_slot(s, x.name) as int, x),
            nm,
        ) as int] == s[name_slot(s, nm) as int],
{
    let pos = name_slot(s, x.name) as int;
    let t = s.insert(pos, x);
    let j = name_slot(s, nm) as int;
    lemma_name_slot(s, x.name);
    lemma_name_slot(s, nm);
    lemma_chars_lt_total(x.name, nm);
    if chars_lt(x.name, nm) {
        // every name before the slot of x sorts below x, hence below nm
        assert forall|i: int| 0 <= i < pos implies chars_lt(#[trigger] s[i].name, nm) by {
            lemma_chars_lt_transitive(s[i].name, x.name, nm);
        }
        if j < pos {
            assert(chars_lt(s[j].name, nm));
        }
        assert(j >= pos);
        assert forall|i: int| 0 <= i < j + 1 implies chars_lt(#[trigger] t[i].name, nm) by {
            if i < pos {
                assert(t[i] == s[i]);
            } else if i == pos {
                assert(t[i] == x);
            } else {
                assert(t[i] == s[i - 1]);
            }
        }
        if j < s.len() {
            assert(t[j + 1] == s[j]);
        }
        lemma_slot_unique(t, nm, j + 1);
    } else {
        // nm sorts below x
        assert(chars_lt(nm, x.name));
        if pos < s.len() {
            lemma_chars_lt_total(s[pos].name, x.name);
            assert(chars_lt(x.name, s[pos].name));
            lemma_chars_lt_transitive(nm, x.name, s[pos].name);
            lemma_chars_lt_asymmetric(nm, s[pos].name);
            if j > pos {
                assert(chars_lt(s[pos].name, nm));
            }
            lemma_chars_lt_irreflexive(nm);
            assert(s[pos].name != nm);
        }
        assert(j <= pos);
        assert forall|i: int| 0 <= i < j implies chars_lt(#[trigger] t[i].name, nm) by {
            assert(t[i] == s[i]);
        }
        if j < pos {
            assert(t[j] == s[j]);
        } else {
            assert(t[j] == x);
            lemma_chars_lt_asymmetric(nm, x.name);
        }
        lemma_slot_unique(t, nm, j);
    }
}

/// Replacing a child by one of the same name leaves every lookup finding
/// the same slot.
proof fn lemma_lookup_after_update(s: Seq<NodeModel>, pos: int, y: NodeModel, nm: Seq<char>)
    requires
        0 <= pos < s.len(),
        y.name == s[pos].name,
    ensures
        name_slot(s.update(pos, y), nm) == name_slot(s, nm),
        has_child(s.update(pos, y), nm) == has_child(s, nm),
{
    let t = s.update(pos, y);
    let j = name_slot(s, nm) as int;
    lemma_name_slot(s, nm);
    assert forall|i: int| 0 <= i < j implies chars_lt(#[trigger] t[i].name, nm) by {
        assert(t[i].name == s[i].name);
    }
    if j < s.len() {
        assert(t[j].name == s[j].name);
    }
    lemma_slot_unique(t, nm, j);
}

/// A child of a new name, put at its slot, is found there by its name.
proof fn lemma_lookup_inserted(s: Seq<NodeModel>, x: NodeModel)
    requires
        !has_child(s, x.name),
    ensures
        name_slot(s.insert(name_slot(s, x.name) as int, x), x.name) == name_slot(s, x.name),
        has_child(s.insert(name_slot(s, x.name) as int, x), x.name),
        s.insert(name_slot(s, x.name) as int, x)[name_slot(s, x.name) as int] == x,
{
    let pos = name_slot(s, x.name) as int;
    let t = s.insert(pos, x);
    lemma_name_slot(s, x.name);
    assert forall|i: int| 0 <= i < pos implies chars_lt(#[trigger] t[i].name, x.name) by {
        assert(t[i] == s[i]);
    }
    lemma_chars_lt_irreflexive(x.name);
    lemma_slot_unique(t, x.name, pos);
}

/// Inserting changes a node's children only: its name, kind, relative path,
/// expansion and difference stay.
pub proof fn lemma_insert_at_keeps(m: NodeModel, comps: Seq<Seq<char>>, d: DiffModel)
    ensures
        insert_at(m, comps, d).name == m.name,
        insert_at(m, comps, d).is_dir == m.is_dir,
        insert_at(m, comps, d).rel_path == m.rel_path,
        insert_at(m, comps, d).expanded == m.expanded,
        insert_at(m, comps, d).diff == m.diff,
{
}

proof fn lemma_prefix_rest(c: Seq<Seq<char>>, p: Seq<Seq<char>>)
    requires
        c.len() > 0,
        p.len() > 0,
        c[0] == p[0],
    ensures
        is_prefix(c, p) == is_prefix(c.drop_first(), p.drop_first()),
{
    if is_prefix(c.drop_first(), p.drop_first()) {
        assert forall|i: int| 0 <= i < c.len() implies #[trigger] p.take(c.len() as int)[i] == c[i] by {
            if i > 0 {
                assert(p.drop_first().take(c.drop_first().len() as int)[i - 1] == c.drop_first()[i - 1]);
            }
        }
        assert(p.take(c.len() as int) =~= c);
    }
    if is_prefix(c, p) {
        assert(p.drop_first().take(c.drop_first().len() as int) =~= c.drop_first());
    }
}

/// Inserting a difference leaves untouched every node whose path does not
/// lead to the inserted one.
pub proof fn lemma_reach_off_path(m: NodeModel, p: Seq<Seq<char>>, d: DiffModel, c: Seq<Seq<char>>)
    requires
        !is_prefix(c, p),
    ensures
        reach(insert_at(m, p, d), c) == reach(m, c),
    decreases p.len(),
{
    if p.len() > 0 {
        assert(c.len() > 0) by {
            if c.len() == 0 {
                assert(p.take(0) =~= c);
            }
        }
        let name = p[0];
        let s = m.children;
        let pos = name_slot(s, name) as int;
        let found = has_child(s, name);
        let r = insert_at(m, p, d);
        lemma_name_slot(s, name);
        if c[0] != name {
            if p.len() == 1 {
                if !found {
                    lemma_lookup_after_insert(s, file_leaf(name, d), c[0]);
                }
            } else {
                let child = if found { s[pos] } else { dir_node(name, m.rel_path.push(name)) };
                let updated = insert_at(child, p.drop_first(), d);
                lemma_insert_at_keeps(child, p.drop_first(), d);
                if found {
                    lemma_lookup_after_update(s, pos, updated, c[0]);
                    assert(r.children == s.update(pos, updated));
                    if has_child(s, c[0]) {
                        assert(name_slot(s, c[0]) != pos);
                    }
                } else {
                    lemma_lookup_after_insert(s, updated, c[0]);
                    assert(r.children == s.insert(pos, updated));
                }
            }
        } else {
            lemma_prefix_rest(c, p);
            if c.len() == 1 {
                assert(p.take(1) =~= c);
            }
            if p.len() == 1 {
                if !found {
                    let leaf = file_leaf(name, d);
                    lemma_lookup_inserted(s, leaf);
                    assert(r.children == s.insert(pos, leaf));
                    assert(reach(leaf, c.drop_first()) == None::<NodeModel>);
                }
            } else {
                let child = if found { s[pos] } else { dir_node(name, m.rel_path.push(name)) };
                let updated = insert_at(child, p.drop_first(), d);
                lemma_insert_at_keeps(child, p.drop_first(), d);
                lemma_reach_off_path(child, p.drop_first(), d, c.drop_first());
                if found {
                    lemma_lookup_after_update(s, pos, updated, name);
                    assert(r.children == s.update(pos, updated));
                } else {
                    lemma_lookup_inserted(s, updated);
                    assert(r.children == s.insert(pos, updated));
                    assert(reach(child, c.drop_first()) == None::<NodeModel>);
                }
            }
        }
    }
}

/// Whether difference path `comps` can be added below `m` as a new file:
/// no node stands at the path itself, and every node standing on the way
/// to it is a directory.
pub open spec fn fresh(m: NodeModel, comps: Seq<Seq<char>>) -> bool
    decreases comps.len(),
{
    &&& comps.len() > 0
    &&& if comps.len() == 1 {
        !has_child(m.children, comps[0])
    } else if has_child(m.children, comps[0]) {
        &&& m.children[name_slot(m.children, comps[0]) as int].is_dir
        &&& fresh(m.children[name_slot(m.children, comps[0]) as int], comps.drop_first())
    } else {
        true
    }
}

proof fn lemma_fresh_empty(m: NodeModel, comps: Seq<Seq<char>>)
    requires
        m.children.len() == 0,
        comps.len() > 0,
    ensures
        fresh(m, comps),
{
}

/// After a new file is inserted at `p`, the nodes on the way to it are
/// directories and the node at `p` is the file for the difference.
pub proof fn lemma_reach_on_path(m: NodeModel, p: Seq<Seq<char>>, d: DiffModel, c: Seq<Seq<char>>)
    requires
        fresh(m, p),
        is_prefix(c, p),
        c.len() > 0,
    ensures
        reach(insert_at(m, p, d), c) is Some,
        reach(insert_at(m, p, d), c).unwrap().is_dir == (c.len() < p.len()),
        c.len() == p.len() ==> reach(insert_at(m, p, d), c) == Some(file_leaf(p.last(), d)),
    decreases p.len(),
{
    let name = p[0];
    let s = m.children;
    let pos = name_slot(s, name) as int;
    let found = has_child(s, name);
    let r = insert_at(m, p, d);
    lemma_name_slot(s, name);
    assert(c[0] == p.take(c.len() as int)[0]);
    assert(c[0] == name);
    if p.len() == 1 {
        let leaf = file_leaf(name, d);
        assert(!found);
        lemma_lookup_inserted(s, leaf);
        assert(r.children == s.insert(pos, leaf));
        assert(c.len() == 1);
        assert(has_child(r.children, c[0]));
        assert(r.children[name_slot(r.children, c[0]) as int] == leaf);
        assert(reach(leaf, c.drop_first()) == Some(leaf));
        assert(reach(r, c) == Some(leaf));
    } else {
        let child = if found { s[pos] } else { dir_node(name, m.rel_path.push(name)) };
        if !found {
            lemma_fresh_empty(child, p.drop_first());
        }
        let updated = insert_at(child, p.drop_first(), d);
        lemma_insert_at_keeps(child, p.drop_first(), d);
        if found {
            lemma_lookup_after_update(s, pos, updated, name);
            assert(r.children == s.update(pos, updated));
        } else {
            lemma_lookup_inserted(s, updated);
            assert(r.children == s.insert(pos, updated));
        }
        assert(reach(r, c) == reach(updated, c.drop_first()));
        if c.len() > 1 {
            lemma_prefix_rest(c, p);
            lemma_reach_on_path(child, p.drop_first(), d, c.drop_first());
            assert(p.drop_first().last() == p.last());
        }
    }
}

/// Adding a new file below a well-formed directory adds exactly one file
/// and exactly the size of its difference.
pub proof fn lemma_insert_fresh_totals(m: NodeModel, p: Seq<Seq<char>>, d: DiffModel)
    requires
        fresh(m, p),
        wf(m),
        m.is_dir,
    ensures
        file_total(insert_at(m, p, d)) == file_total(m) + 1,
        size_total(insert_at(m, p, d)) == size_total(m) + d.size,
    decreases p.len(),
{
    let name = p[0];
    let s = m.children;
    let pos = name_slot(s, name) as int;
    let found = has_child(s, name);
    let r = insert_at(m, p, d);
    lemma_name_slot(s, name);
    lemma_insert_at_keeps(m, p, d);
    if p.len() == 1 {
        let leaf = file_leaf(name, d);
        assert(r.children == s.insert(pos, leaf));
        lemma_totals_insert(s, pos, leaf);
    } else {
        let child = if found { s[pos] } else { dir_node(name, m.rel_path.push(name)) };
        if found {
            assert(wf(s[pos]));
        } else {
            lemma_fresh_empty(child, p.drop_first());
            assert(file_total_seq(child.children) == 0);
            assert(size_total_seq(child.children) == 0);
        }
        lemma_insert_fresh_totals(child, p.drop_first(), d);
        let updated = insert_at(child, p.drop_first(), d);
        if found {
            assert(r.children == s.update(pos, updated));
            lemma_totals_update(s, pos, updated);
        } else {
            assert(r.children == s.insert(pos, updated));
            lemma_totals_insert(s, pos, updated);
        }
    }
}

/// Following `base` and then `q` reaches what following `q` from the node
/// at `base` reaches.
proof fn lemma_reach_append(r: NodeModel, base: Seq<Seq<char>>, q: Seq<Seq<char>>)
    requires
        reach(r, base) is Some,
    ensures
        reach(r, base + q) == reach(reach(r, base).unwrap(), q),
    decreases base.len(),
{
    if base.len() == 0 {
        assert(base + q =~= q);
    } else {
        assert((base + q)[0] == base[0]);
        assert((base + q).drop_first() =~= base.drop_first() + q);
        let child = r.children[name_slot(r.children, base[0]) as int];
        lemma_reach_append(child, base.drop_first(), q);
    }
}

/// Every node below the root stands on the way to the path of some
/// difference, and every file stands exactly at one.
pub open spec fn nodes_on_paths(r: NodeModel, ds: Seq<DiffModel>) -> bool {
    forall|c: Seq<Seq<char>>|
        c.len() > 0 && (#[trigger] reach(r, c)) is Some ==> exists|k: int|
            0 <= k < ds.len() && is_prefix(c, #[trigger] ds[k].rel_path) && (!reach(r, c).unwrap().is_dir
                ==> c == ds[k].rel_path)
}

/// No path of `ds` is empty, and none is a path of another or leads to one:
/// the relative paths of distinct files.
pub open spec fn distinct_file_paths(ds: Seq<DiffModel>) -> bool {
    &&& forall|k: int| 0 <= k < ds.len() ==> (#[trigger] ds[k]).rel_path.len() > 0
    &&& forall|i: int, j: int|
        0 <= i < ds.len() && 0 <= j < ds.len() && i != j ==> !is_prefix(
            #[trigger] ds[i].rel_path,
            #[trigger] ds[j].rel_path,
        )
}

/// A path that neither leads to nor continues a path of the tree's
/// differences can be added as a new file.
proof fn lemma_fresh_from_paths(
    r: NodeModel,
    ds: Seq<DiffModel>,
    base: Seq<Seq<char>>,
    m: NodeModel,
    rest: Seq<Seq<char>>,
)
    requires
        nodes_on_paths(r, ds),
        reach(r, base) == Some(m),
        rest.len() > 0,
        forall|k: int|
            0 <= k < ds.len() ==> !is_prefix(base + rest, #[trigger] ds[k].rel_path) && !is_prefix(
                ds[k].rel_path,
                base + rest,
            ),
    ensures
        fresh(m, rest),
    decreases rest.len(),
{
    let name = rest[0];
    if has_child(m.children, name) {
        let child = m.children[name_slot(m.children, name) as int];
        let c = base + seq![name];
        lemma_reach_append(r, base, seq![name]);
        let one = seq![name];
        assert(one[0] == name);
        assert(one.len() == 1);
        assert(one.drop_first() =~= Seq::<Seq<char>>::empty());
        assert(reach(child, one.drop_first()) == Some(child));
        assert(reach(m, one) == Some(child));
        assert(reach(r, c) == Some(child));
        assert(c.len() > 0);
        let k = choose|k: int|
            0 <= k < ds.len() && is_prefix(c, #[trigger] ds[k].rel_path) && (!reach(r, c).unwrap().is_dir
                ==> c == ds[k].rel_path);
        if rest.len() == 1 {
            assert(c =~= base + rest);
            assert(false);
        } else {
            if !child.is_dir {
                assert((base + rest).take(c.len() as int) =~= c);
                assert(is_prefix(ds[k].rel_path, base + rest));
                assert(false);
            }
            assert(base + rest =~= c + rest.drop_first());
            lemma_fresh_from_paths(r, ds, c, child, rest.drop_first());
        }
    }
}

/// Adding a new file keeps every node on the way to some difference's path,
/// the new one included.
proof fn lemma_paths_step(r: NodeModel, ds: Seq<DiffModel>, d: DiffModel)
    requires
        nodes_on_paths(r, ds),
        fresh(r, d.rel_path),
    ensures
        nodes_on_paths(insert_at(r, d.rel_path, d), ds.push(d)),
{
    let p = d.rel_path;
    let t = insert_at(r, p, d);
    let ds2 = ds.push(d);
    assert forall|c: Seq<Seq<char>>| c.len() > 0 && (#[trigger] reach(t, c)) is Some implies exists|k: int|
        0 <= k < ds2.len() && is_prefix(c, #[trigger] ds2[k].rel_path) && (!reach(t, c).unwrap().is_dir
            ==> c == ds2[k].rel_path) by {
        if is_prefix(c, p) {
            lemma_reach_on_path(r, p, d, c);
            let k = ds.len() as int;
            assert(ds2[k] == d);
            if !reach(t, c).unwrap().is_dir {
                assert(p.take(p.len() as int) =~= p);
            }
            assert(is_prefix(c, ds2[k].rel_path));
        } else {
            lemma_reach_off_path(r, p, d, c);
            let k = choose|k: int|
                0 <= k < ds.len() && is_prefix(c, #[trigger] ds[k].rel_path) && (!reach(r, c).unwrap().is_dir
                    ==> c == ds[k].rel_path);
            assert(ds2[k] == ds[k]);
        }
    }
}

proof fn lemma_built_paths(ds: Seq<DiffModel>)
    requires
        distinct_file_paths(ds),
    ensures
        wf(built(ds)),
        built(ds).is_dir,
        nodes_on_paths(built(ds), ds),
        file_total(built(ds)) == ds.len(),
        size_total(built(ds)) == sum_sizes(ds),
        forall|k: int|
            0 <= k < ds.len() ==> reach(built(ds), #[trigger] ds[k].rel_path) == Some(
                file_leaf(ds[k].rel_path.last(), ds[k]),
            ),
    decreases ds.len(),
{
    if ds.len() == 0 {
        let r = root_model();
        assert(file_total_seq(r.children) == 0);
        assert(size_total_seq(r.children) == 0);
        assert forall|c: Seq<Seq<char>>| c.len() > 0 implies !(#[trigger] reach(r, c) is Some) by {
            assert(!has_child(r.children, c[0]));
        }
    } else {
        let prev = ds.drop_last();
        let d = ds.last();
        let p = d.rel_path;
        let last = ds.len() - 1;
        assert forall|k: int| 0 <= k < prev.len() implies (#[trigger] prev[k]).rel_path.len() > 0 by {
            assert(prev[k] == ds[k]);
        }
        assert forall|i: int, j: int|
            0 <= i < prev.len() && 0 <= j < prev.len() && i != j implies !is_prefix(
                #[trigger] prev[i].rel_path,
                #[trigger] prev[j].rel_path,
            ) by {
            assert(prev[i] == ds[i]);
            assert(prev[j] == ds[j]);
        }
        lemma_built_paths(prev);
        let old_tree = built(prev);
        assert(ds[last] == d);
        assert(p.len() > 0);
        assert forall|k: int| 0 <= k < prev.len() implies !is_prefix(
            Seq::<Seq<char>>::empty() + p,
            #[trigger] prev[k].rel_path,
        ) && !is_prefix(prev[k].rel_path, Seq::<Seq<char>>::empty() + p) by {
            assert(Seq::<Seq<char>>::empty() + p =~= p);
            assert(prev[k] == ds[k]);
            assert(!is_prefix(ds[last].rel_path, ds[k].rel_path));
            assert(!is_prefix(ds[k].rel_path, ds[last].rel_path));
        }
        lemma_fresh_from_paths(old_tree, prev, Seq::empty(), old_tree, p);
        assert(Seq::<Seq<char>>::empty() + p =~= p);
        assert(built(ds) == insert_at(old_tree, p, d));
        lemma_insert_at_wf(old_tree, p, d);
        lemma_insert_at_keeps(old_tree, p, d);
        lemma_insert_fresh_totals(old_tree, p, d);
        lemma_paths_step(old_tree, prev, d);
        assert(prev.push(d) =~= ds);
        assert forall|k: int| 0 <= k < ds.len() implies reach(built(ds), #[trigger] ds[k].rel_path) == Some(
            file_leaf(ds[k].rel_path.last(), ds[k]),
        ) by {
            if k == last {
                assert(p.take(p.len() as int) =~= p);
                lemma_reach_on_path(old_tree, p, d, p);
            } else {
                assert(prev[k] == ds[k]);
                assert(!is_prefix(ds[k].rel_path, ds[last].rel_path));
                lemma_reach_off_path(old_tree, p, d, ds[k].rel_path);
            }
        }
    }
}

/// Building the tree from the differences of distinct files shows each of
/// them exactly once: every difference stands as a file node at its own
/// relative path, every file node stands at the path of a difference, and
/// the tree counts one file and the size of each difference.
pub proof fn law_tree_shows_each_difference(ds: Seq<DiffModel>)
    requires
        distinct_file_paths(ds),
    ensures
        forall|k: int|
            0 <= k < ds.len() ==> reach(built(ds), #[trigger] ds[k].rel_path) == Some(
                file_leaf(ds[k].rel_path.last(), ds[k]),
            ),
        forall|c: Seq<Seq<char>>|
            (#[trigger] reach(built(ds), c)) is Some && !reach(built(ds), c).unwrap().is_dir ==> exists|k: int|
                0 <= k < ds.len() && c == #[trigger] ds[k].rel_path,
        file_total(built(ds)) == ds.len(),
        size_total(built(ds)) == sum_sizes(ds),
{
    lemma_built_paths(ds);
    assert forall|c: Seq<Seq<char>>|
        (#[trigger] reach(built(ds), c)) is Some && !reach(built(ds), c).unwrap().is_dir implies exists|k: int|
            0 <= k < ds.len() && c == #[trigger] ds[k].rel_path by {
        if c.len() == 0 {
            assert(reach(built(ds), c) == Some(built(ds)));
        }
    }
}

/// Child `c` stands where insertion puts it below a node at path `parent`:
/// its path is the parent's path and its own name; a directory holds no
/// difference; a file holds the difference of its own path and no children.
pub open spec fn node_placed(parent: Seq<Seq<char>>, c: NodeModel) -> bool {
    &&& c.rel_path == parent.push(c.name)
    &&& c.is_dir ==> c.diff is None
    &&& !c.is_dir ==> (c.diff matches Some(d) && d.rel_path == c.rel_path && c.children.len() == 0)
}

/// Every node below `m` is placed as insertion places it.
pub open spec fn paths_consistent(m: NodeModel) -> bool
    decreases m,
{
    forall|i: int|
        0 <= i < m.children.len() ==> node_placed(m.rel_path, #[trigger] m.children[i])
            && paths_consistent(m.children[i])
}

/// No file stands on the way to path `comps` below `m` (a file may stand at
/// the path itself).
pub open spec fn no_file_on_way(m: NodeModel, comps: Seq<Seq<char>>) -> bool
    decreases comps.len(),
{
    comps.len() <= 1 || (has_child(m.children, comps[0]) ==> {
        &&& m.children[name_slot(m.children, comps[0]) as int].is_dir
        &&& no_file_on_way(m.children[name_slot(m.children, comps[0]) as int], comps.drop_first())
    })
}

proof fn lemma_insert_keeps_paths(m: NodeModel, comps: Seq<Seq<char>>, d: DiffModel)
    requires
        paths_consistent(m),
        m.rel_path + comps == d.rel_path,
        no_file_on_way(m, comps),
    ensures
        paths_consistent(insert_at(m, comps, d)),
    decreases comps.len(),
{
    if comps.len() > 0 {
        let name = comps[0];
        let s = m.children;
        let pos = name_slot(s, name) as int;
        let found = has_child(s, name);
        let r = insert_at(m, comps, d);
        lemma_name_slot(s, name);
        lemma_insert_at_keeps(m, comps, d);
        if comps.len() == 1 {
            if !found {
                let leaf = file_leaf(name, d);
                assert(m.rel_path.push(name) =~= m.rel_path + comps);
                assert(r.children == s.insert(pos, leaf));
                assert(node_placed(m.rel_path, leaf));
                assert(paths_consistent(leaf));
                assert forall|i: int| 0 <= i < r.children.len() implies node_placed(r.rel_path, #[trigger] r.children[i])
                    && paths_consistent(r.children[i]) by {
                    if i < pos {
                        assert(r.children[i] == s[i]);
                    } else if i > pos {
                        assert(r.children[i] == s[i - 1]);
                    }
                }
            }
        } else {
            let child = if found { s[pos] } else { dir_node(name, m.rel_path.push(name)) };
            if found {
                assert(node_placed(m.rel_path, s[pos]) && paths_consistent(s[pos]));
            } else {
                assert(paths_consistent(child));
            }
            assert(child.rel_path == m.rel_path.push(name));
            assert(child.rel_path + comps.drop_first() =~= m.rel_path + comps);
            lemma_insert_keeps_paths(child, comps.drop_first(), d);
            let updated = insert_at(child, comps.drop_first(), d);
            lemma_insert_at_keeps(child, comps.drop_first(), d);
            assert(node_placed(m.rel_path, updated));
            if found {
                assert(r.children == s.update(pos, updated));
                assert forall|i: int| 0 <= i < r.children.len() implies node_placed(r.rel_path, #[trigger] r.children[i])
                    && paths_consistent(r.children[i]) by {
                    if i != pos {
                        assert(r.children[i] == s[i]);
                    }
                }
            } else {
                assert(r.children == s.insert(pos, updated));
                assert forall|i: int| 0 <= i < r.children.len() implies node_placed(r.rel_path, #[trigger] r.children[i])
                    && paths_consistent(r.children[i]) by {
                    if i < pos {
                        assert(r.children[i] == s[i]);
                    } else if i > pos {
                        assert(r.children[i] == s[i - 1]);
                    }
                }
            }
        }
    }
}

/// Inserting a difference at a root keeps every node placed: names stay
/// the keys they are found by, a directory's path is its parent's path and
/// its name, and a file holds the difference of its path and no children,
/// provided no file stands on the way to the inserted path.
pub proof fn law_insert_keeps_paths(m: NodeModel, d: DiffModel)
    requires
        paths_consistent(m),
        m.rel_path == Seq::<Seq<char>>::empty(),
        no_file_on_way(m, d.rel_path),
    ensures
        paths_consistent(insert_at(m, d.rel_path, d)),
        insert_at(m, d.rel_path, d).rel_path == m.rel_path,
{
    assert(m.rel_path + d.rel_path =~= d.rel_path);
    lemma_insert_keeps_paths(m, d.rel_path, d);
    lemma_insert_at_keeps(m, d.rel_path, d);
}

proof fn lemma_fresh_no_file_on_way(m: NodeModel, comps: Seq<Seq<char>>)
    requires
        fresh(m, comps),
    ensures
        no_file_on_way(m, comps),
    decreases comps.len(),
{
    if comps.len() > 1 && has_child(m.children, comps[0]) {
        lemma_fresh_no_file_on_way(m.children[name_slot(m.children, comps[0]) as int], comps.drop_first());
    }
}

/// Every directory below `m` is expanded.
pub open spec fn dirs_expanded(m: NodeModel) -> bool
    decreases m,
{
    forall|i: int|
        0 <= i < m.children.len() ==> ((#[trigger] m.children[i]).is_dir ==> m.children[i].expanded)
            && dirs_expanded(m.children[i])
}

proof fn lemma_insert_keeps_expanded(m: NodeModel, comps: Seq<Seq<char>>, d: DiffModel)
    requires
        dirs_expanded(m),
    ensures
        dirs_expanded(insert_at(m, comps, d)),
    decreases comps.len(),
{
    if comps.len() > 0 {
        let name = comps[0];
        let s = m.children;
        let pos = name_slot(s, name) as int;
        let found = has_child(s, name);
        let r = insert_at(m, comps, d);
        lemma_name_slot(s, name);
        if comps.len() == 1 {
            if !found {
                let leaf = file_leaf(name, d);
                assert(r.children == s.insert(pos, leaf));
                assert(dirs_expanded(leaf));
                assert forall|i: int| 0 <= i < r.children.len() implies ((#[trigger] r.children[i]).is_dir
                    ==> r.children[i].expanded) && dirs_expanded(r.children[i]) by {
                    if i < pos {
                        assert(r.children[i] == s[i]);
                    } else if i > pos {
                        assert(r.children[i] == s[i - 1]);
                    }
                }
            }
        } else {
            let child = if found { s[pos] } else { dir_node(name, m.rel_path.push(name)) };
            if found {
                assert(dirs_expanded(s[pos]));
            } else {
                assert(dirs_expanded(child));
            }
            lemma_insert_keeps_expanded(child, comps.drop_first(), d);
            let updated = insert_at(child, comps.drop_first(), d);
            lemma_insert_at_keeps(child, comps.drop_first(), d);
            if found {
                assert(r.children == s.update(pos, updated));
                assert forall|i: int| 0 <= i < r.children.len() implies ((#[trigger] r.children[i]).is_dir
                    ==> r.children[i].expanded) && dirs_expanded(r.children[i]) by {
                    if i != pos {
                        assert(r.children[i] == s[i]);
                    }
                }
            } else {
                assert(r.children == s.insert(pos, updated));
                assert forall|i: int| 0 <= i < r.children.len() implies ((#[trigger] r.children[i]).is_dir
                    ==> r.children[i].expanded) && dirs_expanded(r.children[i]) by {
                    if i < pos {
                        assert(r.children[i] == s[i]);
                    } else if i > pos {
                        assert(r.children[i] == s[i - 1]);
                    }
                }
            }
        }
    }
}

/// The shape of a tree built from differences of distinct files: every
/// node placed as insertion places it, every directory expanded, the root
/// an expanded directory with empty name and path.
pub proof fn law_built_tree_shape(ds: Seq<DiffModel>)
    requires
        distinct_file_paths(ds),
    ensures
        paths_consistent(built(ds)),
        dirs_expanded(built(ds)),
        built(ds).rel_path == Seq::<Seq<char>>::empty(),
        built(ds).name == Seq::<char>::empty(),
        built(ds).is_dir,
        built(ds).expanded,
        built(ds).diff is None,
    decreases ds.len(),
{
    if ds.len() == 0 {
        assert(paths_consistent(root_model()));
        assert(dirs_expanded(root_model()));
    } else {
        let prev = ds.drop_last();
        let d = ds.last();
        let p = d.rel_path;
        let last = ds.len() - 1;
        assert forall|k: int| 0 <= k < prev.len() implies (#[trigger] prev[k]).rel_path.len() > 0 by {
            assert(prev[k] == ds[k]);
        }
        assert forall|i: int, j: int|
            0 <= i < prev.len() && 0 <= j < prev.len() && i != j implies !is_prefix(
                #[trigger] prev[i].rel_path,
                #[trigger] prev[j].rel_path,
            ) by {
            assert(prev[i] == ds[i]);
            assert(prev[j] == ds[j]);
        }
        law_built_tree_shape(prev);
        lemma_built_paths(prev);
        let old_tree = built(prev);
        assert(ds[last] == d);
        assert forall|k: int| 0 <= k < prev.len() implies !is_prefix(
            Seq::<Seq<char>>::empty() + p,
            #[trigger] prev[k].rel_path,
        ) && !is_prefix(prev[k].rel_path, Seq::<Seq<char>>::empty() + p) by {
            assert(Seq::<Seq<char>>::empty() + p =~= p);
            assert(prev[k] == ds[k]);
            assert(!is_prefix(ds[last].rel_path, ds[k].rel_path));
            assert(!is_prefix(ds[k].rel_path, ds[last].rel_path));
        }
        lemma_fresh_from_paths(old_tree, prev, Seq::empty(), old_tree, p);
        lemma_fresh_no_file_on_way(old_tree, p);
        assert(built(ds) == insert_at(old_tree, p, d));
        law_insert_keeps_paths(old_tree, d);
        lemma_insert_keeps_expanded(old_tree, p, d);
        lemma_insert_at_keeps(old_tree, p, d);
    }
}

/// A path that leads to a reachable one is reachable.
proof fn lemma_reach_prefix(m: NodeModel, c: Seq<Seq<char>>, q: Seq<Seq<char>>)
    requires
        reach(m, c + q) is Some,
    ensures
        reach(m, c) is Some,
    decreases c.len(),
{
    if c.len() > 0 {
        assert((c + q)[0] == c[0]);
        assert((c + q).drop_first() =~= c.drop_first() + q);
        lemma_reach_prefix(m.children[name_slot(m.children, c[0]) as int], c.drop_first(), q);
    }
}

/// Following `x` and then `c` from `m`.
proof fn lemma_reach_cons(m: NodeModel, x: Seq<char>, c: Seq<Seq<char>>)
    ensures
        reach(m, seq![x] + c) == (if has_child(m.children, x) {
            reach(m.children[name_slot(m.children, x) as int], c)
        } else {
            None
        }),
        reach(m, seq![x]) == (if has_child(m.children, x) {
            Some(m.children[name_slot(m.children, x) as int])
        } else {
            None
        }),
{
    assert((seq![x] + c)[0] == x);
    assert((seq![x] + c).drop_first() =~= c);
    let one = seq![x];
    assert(one[0] == x);
    assert(one.len() == 1);
    assert(one.drop_first() =~= Seq::<Seq<char>>::empty());
    if has_child(m.children, x) {
        let child = m.children[name_slot(m.children, x) as int];
        assert(reach(child, one.drop_first()) == Some(child));
    }
}

/// The children named `x` of two child lists agree: present in both or in
/// neither, and the same node where present.
pub open spec fn same_child(s1: Seq<NodeModel>, s2: Seq<NodeModel>, x: Seq<char>) -> bool {
    &&& has_child(s1, x) == has_child(s2, x)
    &&& has_child(s1, x) ==> s1[name_slot(s1, x) as int] == s2[name_slot(s2, x) as int]
}

/// In a sorted child list the first child is found by its name at slot 0,
/// and the rest hold no child of that name.
proof fn lemma_first_child(s: Seq<NodeModel>)
    requires
        names_sorted(s),
        s.len() > 0,
    ensures
        name_slot(s, s[0].name) == 0,
        has_child(s, s[0].name),
        !has_child(s.drop_first(), s[0].name),
{
    let x = s[0].name;
    lemma_chars_lt_irreflexive(x);
    let t = s.drop_first();
    if t.len() > 0 {
        assert(t[0] == s[1]);
        assert(chars_lt(x, t[0].name));
        lemma_chars_lt_asymmetric(x, t[0].name);
    }
}

/// Dropping the first child of a sorted list changes the lookup of no
/// other name.
proof fn lemma_lookup_in_rest(s: Seq<NodeModel>, z: Seq<char>)
    requires
        names_sorted(s),
        s.len() > 0,
        z != s[0].name,
    ensures
        has_child(s, z) == has_child(s.drop_first(), z),
        has_child(s, z) ==> s[name_slot(s, z) as int] == s.drop_first()[name_slot(s.drop_first(), z) as int],
{
    let t = s.drop_first();
    if chars_lt(s[0].name, z) {
        assert(name_slot(s, z) == 1 + name_slot(t, z));
        lemma_name_slot(t, z);
        if name_slot(t, z) < t.len() {
            assert(t[name_slot(t, z) as int] == s[name_slot(s, z) as int]);
        }
    } else {
        lemma_chars_lt_total(s[0].name, z);
        assert(chars_lt(z, s[0].name));
        assert(name_slot(s, z) == 0);
        if t.len() > 0 {
            assert(t[0] == s[1]);
            lemma_chars_lt_transitive(z, s[0].name, t[0].name);
            lemma_chars_lt_asymmetric(z, t[0].name);
            lemma_chars_lt_irreflexive(z);
            assert(name_slot(t, z) == 0);
        }
    }
}

/// Two child lists sorted by name that agree on every name are the same.
proof fn lemma_children_unique(s1: Seq<NodeModel>, s2: Seq<NodeModel>)
    requires
        names_sorted(s1),
        names_sorted(s2),
        forall|x: Seq<char>| #[trigger] same_child(s1, s2, x),
    ensures
        s1 == s2,
    decreases s1.len(),
{
    if s1.len() == 0 {
        if s2.len() > 0 {
            lemma_first_child(s2);
            assert(same_child(s1, s2, s2[0].name));
        }
        assert(s1 =~= s2);
    } else {
        let x = s1[0].name;
        lemma_first_child(s1);
        assert(same_child(s1, s2, x));
        assert(s2.len() > 0);
        let y = s2[0].name;
        lemma_first_child(s2);
        assert(same_child(s1, s2, y));
        if x != y {
            lemma_chars_lt_total(x, y);
            lemma_name_slot(s2, x);
            lemma_name_slot(s1, y);
            if chars_lt(x, y) {
                // x stands in s2 after y, so y sorts before x
                assert(name_slot(s2, x) > 0);
                assert(chars_lt(s2[0].name, x));
                lemma_chars_lt_asymmetric(x, y);
            } else {
                assert(name_slot(s1, y) > 0);
                assert(chars_lt(s1[0].name, y));
                lemma_chars_lt_asymmetric(y, x);
            }
        }
        assert(s1[0] == s2[0]);
        let t1 = s1.drop_first();
        let t2 = s2.drop_first();
        assert forall|z: Seq<char>| #[trigger] same_child(t1, t2, z) by {
            if z == x {
            } else {
                assert(same_child(s1, s2, z));
                lemma_lookup_in_rest(s1, z);
                lemma_lookup_in_rest(s2, z);
            }
        }
        assert(names_sorted(t1)) by {
            assert forall|i: int, j: int| 0 <= i < j < t1.len() implies chars_lt(#[trigger] t1[i].name, #[trigger] t1[j].name) by {
                assert(t1[i] == s1[i + 1] && t1[j] == s1[j + 1]);
            }
        }
        assert(names_sorted(t2)) by {
            assert forall|i: int, j: int| 0 <= i < j < t2.len() implies chars_lt(#[trigger] t2[i].name, #[trigger] t2[j].name) by {
                assert(t2[i] == s2[i + 1] && t2[j] == s2[j + 1]);
            }
        }
        lemma_children_unique(t1, t2);
        assert(s1 =~= seq![s1[0]] + t1);
        assert(s2 =~= seq![s2[0]] + t2);
    }
}

/// Two trees reach nodes at the same paths, and where either reaches a
/// file the two reach the same node.
pub open spec fn same_reach(m1: NodeModel, m2: NodeModel) -> bool {
    forall|c: Seq<Seq<char>>|
        #![trigger reach(m1, c)]
        #![trigger reach(m2, c)]
        (reach(m1, c) is Some <==> reach(m2, c) is Some) && (reach(m1, c) is Some && (!reach(m1, c).unwrap().is_dir
            || !reach(m2, c).unwrap().is_dir) ==> reach(m1, c) == reach(m2, c))
}

/// Two well-formed trees of the shape that building gives, with the same
/// root and the same nodes at the same paths, are the same tree.
proof fn lemma_tree_unique(m1: NodeModel, m2: NodeModel)
    requires
        wf(m1),
        wf(m2),
        paths_consistent(m1),
        paths_consistent(m2),
        dirs_expanded(m1),
        dirs_expanded(m2),
        m1.is_dir,
        m2.is_dir,
        m1.name == m2.name,
        m1.rel_path == m2.rel_path,
        m1.expanded == m2.expanded,
        m1.diff == m2.diff,
        same_reach(m1, m2),
    ensures
        m1 == m2,
    decreases m1,
{
    let s1 = m1.children;
    let s2 = m2.children;
    assert forall|x: Seq<char>| #[trigger] same_child(s1, s2, x) by {
        lemma_reach_cons(m1, x, Seq::empty());
        lemma_reach_cons(m2, x, Seq::empty());
        assert(reach(m1, seq![x]) is Some <==> reach(m2, seq![x]) is Some);
        if has_child(s1, x) {
            let i1 = name_slot(s1, x) as int;
            let i2 = name_slot(s2, x) as int;
            let c1 = s1[i1];
            let c2 = s2[i2];
            if !c1.is_dir || !c2.is_dir {
                assert(reach(m1, seq![x]) == reach(m2, seq![x]));
            } else {
                assert forall|c: Seq<Seq<char>>|
                    #![trigger reach(c1, c)]
                    #![trigger reach(c2, c)]
                    (reach(c1, c) is Some <==> reach(c2, c) is Some) && (reach(c1, c) is Some && (
                    !reach(c1, c).unwrap().is_dir || !reach(c2, c).unwrap().is_dir) ==> reach(c1, c) == reach(
                        c2,
                        c,
                    )) by {
                    lemma_reach_cons(m1, x, c);
                    lemma_reach_cons(m2, x, c);
                    assert(reach(m1, seq![x] + c) == reach(c1, c));
                    assert(reach(m2, seq![x] + c) == reach(c2, c));
                }
                assert(wf(c1) && wf(c2));
                assert(node_placed(m1.rel_path, c1) && paths_consistent(c1));
                assert(node_placed(m2.rel_path, c2) && paths_consistent(c2));
                assert(dirs_expanded(c1) && dirs_expanded(c2));
                lemma_tree_unique(c1, c2);
            }
        }
    }
    lemma_children_unique(s1, s2);
}

/// The tree built from differences of distinct files reaches exactly the
/// paths that lead to a difference's path.
proof fn lemma_built_reach(ds: Seq<DiffModel>, c: Seq<Seq<char>>)
    requires
        distinct_file_paths(ds),
    ensures
        reach(built(ds), c) is Some <==> (c.len() == 0 || exists|k: int| 0 <= k < ds.len() && is_prefix(c, #[trigger] ds[k].rel_path)),
        reach(built(ds), c) matches Some(n) && !n.is_dir ==> exists|k: int|
            0 <= k < ds.len() && c == (#[trigger] ds[k]).rel_path && reach(built(ds), c) == Some(
                file_leaf(c.last(), ds[k]),
            ),
{
    lemma_built_paths(ds);
    let t = built(ds);
    if c.len() == 0 {
        assert(reach(t, c) == Some(t));
    } else {
        if exists|k: int| 0 <= k < ds.len() && is_prefix(c, #[trigger] ds[k].rel_path) {
            let k = choose|k: int| 0 <= k < ds.len() && is_prefix(c, #[trigger] ds[k].rel_path);
            let p = ds[k].rel_path;
            assert(p =~= c + p.skip(c.len() as int));
            lemma_reach_prefix(t, c, p.skip(c.len() as int));
        }
        if reach(t, c) matches Some(n) && !n.is_dir {
            let k = choose|k: int|
                0 <= k < ds.len() && is_prefix(c, #[trigger] ds[k].rel_path) && (!reach(t, c).unwrap().is_dir
                    ==> c == ds[k].rel_path);
            assert(reach(t, ds[k].rel_path) == Some(file_leaf(ds[k].rel_path.last(), ds[k])));
        }
    }
}

/// Building the tree does not depend on the order of the differences: two
/// lists of the same differences of distinct files build the same tree.
pub proof fn law_build_order_independent(ds: Seq<DiffModel>, qs: Seq<DiffModel>)
    requires
        distinct_file_paths(ds),
        distinct_file_paths(qs),
        ds.to_set() == qs.to_set(),
    ensures
        built(ds) == built(qs),
{
    lemma_built_paths(ds);
    lemma_built_paths(qs);
    law_built_tree_shape(ds);
    law_built_tree_shape(qs);
    let t1 = built(ds);
    let t2 = built(qs);
    assert forall|c: Seq<Seq<char>>|
        #![trigger reach(t1, c)]
        #![trigger reach(t2, c)]
        (reach(t1, c) is Some <==> reach(t2, c) is Some) && (reach(t1, c) is Some && (!reach(t1, c).unwrap().is_dir
            || !reach(t2, c).unwrap().is_dir) ==> reach(t1, c) == reach(t2, c)) by {
        lemma_built_reach(ds, c);
        lemma_built_reach(qs, c);
        if exists|k: int| 0 <= k < ds.len() && is_prefix(c, #[trigger] ds[k].rel_path) {
            let k = choose|k: int| 0 <= k < ds.len() && is_prefix(c, #[trigger] ds[k].rel_path);
            assert(ds.to_set().contains(ds[k]));
            assert(qs.to_set().contains(ds[k]));
            let j = choose|j: int| 0 <= j < qs.len() && qs[j] == ds[k];
            assert(is_prefix(c, qs[j].rel_path));
        }
        if exists|k: int| 0 <= k < qs.len() && is_prefix(c, #[trigger] qs[k].rel_path) {
            let k = choose|k: int| 0 <= k < qs.len() && is_prefix(c, #[trigger] qs[k].rel_path);
            assert(qs.to_set().contains(qs[k]));
            assert(ds.to_set().contains(qs[k]));
            let j = choose|j: int| 0 <= j < ds.len() && ds[j] == qs[k];
            assert(is_prefix(c, ds[j].rel_path));
        }
        if reach(t1, c) matches Some(n) && !n.is_dir {
            let k = choose|k: int|
                0 <= k < ds.len() && c == (#[trigger] ds[k]).rel_path && reach(t1, c) == Some(
                    file_leaf(c.last(), ds[k]),
                );
            assert(ds.to_set().contains(ds[k]));
            assert(qs.to_set().contains(ds[k]));
            let j = choose|j: int| 0 <= j < qs.len() && qs[j] == ds[k];
            assert(reach(t2, qs[j].rel_path) == Some(file_leaf(qs[j].rel_path.last(), qs[j])));
        }
        if reach(t2, c) matches Some(n) && !n.is_dir {
            let k = choose|k: int|
                0 <= k < qs.len() && c == (#[trigger] qs[k]).rel_path && reach(t2, c) == Some(
                    file_leaf(c.last(), qs[k]),
                );
            assert(qs.to_set().contains(qs[k]));
            assert(ds.to_set().contains(qs[k]));
            let j = choose|j: int| 0 <= j < ds.len() && ds[j] == qs[k];
            assert(reach(t1, ds[j].rel_path) == Some(file_leaf(ds[j].rel_path.last(), ds[j])));
        }
    }
    lemma_tree_unique(t1, t2);
}

/// The node that `c` reaches below a node where every node is placed by its
/// path stands at that node's path followed by `c`.
proof fn lemma_reach_rel_path(m: NodeModel, c: Seq<Seq<char>>)
    requires
        paths_consistent(m),
        reach(m, c) is Some,
    ensures
        reach(m, c).unwrap().rel_path == m.rel_path + c,
        paths_consistent(reach(m, c).unwrap()),
    decreases c.len(),
{
    if c.len() == 0 {
        assert(m.rel_path + c =~= m.rel_path);
    } else {
        let child = m.children[name_slot(m.children, c[0]) as int];
        assert(node_placed(m.rel_path, child) && paths_consistent(child));
        lemma_reach_rel_path(child, c.drop_first());
        assert(child.name == c[0]);
        assert(child.rel_path + c.drop_first() =~= m.rel_path + c);
    }
}

/// Child lists whose names agree one by one find every name at the same slot.
proof fn lemma_same_names_same_slots(s: Seq<NodeModel>, t: Seq<NodeModel>, x: Seq<char>)
    requires
        s.len() == t.len(),
        forall|i: int| 0 <= i < s.len() ==> (#[trigger] s[i]).name == t[i].name,
    ensures
        name_slot(s, x) == name_slot(t, x),
        has_child(s, x) == has_child(t, x),
    decreases s.len(),
{
    if s.len() > 0 {
        assert forall|i: int| 0 <= i < s.drop_first().len() implies (#[trigger] s.drop_first()[i]).name == t.drop_first()[i].name by {
            assert(s.drop_first()[i] == s[i + 1]);
            assert(t.drop_first()[i] == t[i + 1]);
        }
        assert(s[0].name == t[0].name);
        lemma_same_names_same_slots(s.drop_first(), t.drop_first(), x);
        lemma_name_slot(s, x);
        if name_slot(s, x) < s.len() {
            assert(s[name_slot(s, x) as int].name == t[name_slot(t, x) as int].name);
        }
    }
}

/// Expanding or collapsing directory `p` flips the expansion of the
/// directory whose path is `p` and of nothing else: every node stays where
/// it was, with its name, path, kind and difference, and every node with
/// another path, or that is a file, keeps its expansion.
pub proof fn law_toggle_flips_only_that_directory(m: NodeModel, p: Seq<Seq<char>>, c: Seq<Seq<char>>)
    requires
        paths_consistent(m),
    ensures
        (reach(toggled(m, p), c) is Some) == (reach(m, c) is Some),
        reach(m, c) matches Some(n) ==> (reach(toggled(m, p), c) matches Some(n2) && n2.expanded == (if n.is_dir
            && n.rel_path == p {
            !n.expanded
        } else {
            n.expanded
        }) && n2.name == n.name && n2.rel_path == n.rel_path && n2.is_dir == n.is_dir && n2.diff == n.diff),
    decreases c.len(),
{
    let t = toggled(m, p);
    if c.len() > 0 {
        if m.is_dir && m.rel_path == p {
            assert(t.children == m.children);
            if reach(m, c) is Some {
                lemma_reach_rel_path(m, c);
                assert((m.rel_path + c).len() > p.len());
            }
        } else {
            let s = m.children;
            let ts = t.children;
            assert forall|i: int| 0 <= i < s.len() implies (#[trigger] s[i]).name == ts[i].name by {
                assert(ts[i] == toggled(s[i], p));
            }
            lemma_same_names_same_slots(s, ts, c[0]);
            if has_child(s, c[0]) {
                let i = name_slot(s, c[0]) as int;
                assert(ts[i] == toggled(s[i], p));
                assert(node_placed(m.rel_path, s[i]) && paths_consistent(s[i]));
                law_toggle_flips_only_that_directory(s[i], p, c.drop_first());
            }
        }
    }
}

/// Path `c` leads from `m` to a node, and every directory strictly between
/// `m` and that node is expanded: the node is a row of the browser.
pub open spec fn shown_below(m: NodeModel, c: Seq<Seq<char>>) -> bool {
    &&& c.len() > 0
    &&& reach(m, c) is Some
    &&& forall|j: int|
        0 < j < c.len() ==> ((#[trigger] reach(m, c.take(j))) matches Some(x) && x.is_dir && x.expanded)
}

proof fn lemma_reach_wf(m: NodeModel, c: Seq<Seq<char>>)
    requires
        wf(m),
        reach(m, c) is Some,
    ensures
        wf(reach(m, c).unwrap()),
    decreases c.len(),
{
    if c.len() > 0 {
        let child = m.children[name_slot(m.children, c[0]) as int];
        assert(wf(child));
        lemma_reach_wf(child, c.drop_first());
    }
}

/// In a list sorted by name each child is found at its own index.
proof fn lemma_slot_of_index(s: Seq<NodeModel>, k: int)
    requires
        names_sorted(s),
        0 <= k < s.len(),
    ensures
        name_slot(s, s[k].name) == k,
        has_child(s, s[k].name),
{
    lemma_chars_lt_irreflexive(s[k].name);
    lemma_slot_unique(s, s[k].name, k);
}

/// The child at index `k` of the node at `c` is reached by `c` and its name.
proof fn lemma_reach_child(m: NodeModel, c: Seq<Seq<char>>, n: NodeModel, k: int)
    requires
        wf(m),
        reach(m, c) == Some(n),
        0 <= k < n.children.len(),
    ensures
        reach(m, c + seq![n.children[k].name]) == Some(n.children[k]),
        (c + seq![n.children[k].name]).take(c.len() as int) == c,
{
    lemma_reach_wf(m, c);
    lemma_slot_of_index(n.children, k);
    lemma_reach_append(m, c, seq![n.children[k].name]);
    lemma_reach_cons(n, n.children[k].name, Seq::empty());
    assert(seq![n.children[k].name] + Seq::<Seq<char>>::empty() =~= seq![n.children[k].name]);
    assert((c + seq![n.children[k].name]).take(c.len() as int) =~= c);
}

/// The rows listed for the first `k` children of the node at `c` (the root,
/// or a node shown and expanded) all stand for nodes shown below the root,
/// at the depth of their path.
proof fn lemma_rows_of_children(m: NodeModel, c: Seq<Seq<char>>, n: NodeModel, k: nat)
    requires
        wf(m),
        reach(m, c) == Some(n),
        c.len() == 0 || (shown_below(m, c) && n.is_dir && n.expanded),
        k <= n.children.len(),
    ensures
        forall|i: int|
            0 <= i < flat_seq(n.children.take(k as int), c.len() as nat).len() ==> exists|c2: Seq<Seq<char>>|
                shown_below(m, c2) && reach(m, c2) == Some(
                    (#[trigger] flat_seq(n.children.take(k as int), c.len() as nat)[i]).1,
                ) && flat_seq(n.children.take(k as int), c.len() as nat)[i].0 == c2.len() - 1,
    decreases n, 0nat, k,
{
    let d = c.len() as nat;
    if k > 0 {
        let s = n.children;
        let prefix = s.take(k as int);
        assert(prefix.drop_last() =~= s.take(k - 1));
        assert(prefix.last() == s[k - 1]);
        lemma_rows_of_children(m, c, n, (k - 1) as nat);
        let child = s[k - 1];
        let c2 = c + seq![child.name];
        lemma_reach_child(m, c, n, k - 1);
        assert(shown_below(m, c2)) by {
            assert forall|j: int| 0 < j < c2.len() implies ((#[trigger] reach(m, c2.take(j))) matches Some(x)
                && x.is_dir && x.expanded) by {
                if j < c.len() {
                    assert(c2.take(j) =~= c.take(j));
                } else {
                    assert(j == c.len());
                }
            }
        }
        assert(c2.len() - 1 == d);
        lemma_rows_of_node(m, c2, child);
        let a = flat_seq(s.take(k - 1), d);
        let b = flat_node(child, d);
        let rows = flat_seq(prefix, d);
        assert(rows == a + b);
        assert forall|i: int| 0 <= i < rows.len() implies exists|c3: Seq<Seq<char>>|
            shown_below(m, c3) && reach(m, c3) == Some((#[trigger] rows[i]).1) && rows[i].0 == c3.len() - 1 by {
            if i < a.len() {
                let t = flat_seq(n.children.take(((k - 1) as nat) as int), c.len() as nat);
                assert(t == a);
                assert(rows[i] == t[i]);
            } else {
                let t = flat_node(child, (c2.len() - 1) as nat);
                assert(t == b);
                assert(rows[i] == t[i - a.len()]);
            }
        }
    } else {
        assert(n.children.take(0) =~= Seq::<NodeModel>::empty());
    }
}

/// The rows listed below a node shown at `c` stand for nodes shown below
/// the root, at the depth of their path.
proof fn lemma_rows_of_node(m: NodeModel, c: Seq<Seq<char>>, n: NodeModel)
    requires
        wf(m),
        shown_below(m, c),
        reach(m, c) == Some(n),
    ensures
        forall|i: int|
            0 <= i < flat_node(n, (c.len() - 1) as nat).len() ==> exists|c2: Seq<Seq<char>>|
                shown_below(m, c2) && reach(m, c2) == Some((#[trigger] flat_node(n, (c.len() - 1) as nat)[i]).1)
                    && flat_node(n, (c.len() - 1) as nat)[i].0 == c2.len() - 1,
    decreases n, 1nat, 0nat,
{
    let d = (c.len() - 1) as nat;
    let rows = flat_node(n, d);
    if n.is_dir && n.expanded {
        lemma_rows_of_children(m, c, n, n.children.len());
        assert(n.children.take(n.children.len() as int) =~= n.children);
        let inner = flat_seq(n.children, d + 1);
        assert(rows == seq![(d, n)] + inner);
        assert forall|i: int| 0 <= i < rows.len() implies exists|c2: Seq<Seq<char>>|
            shown_below(m, c2) && reach(m, c2) == Some((#[trigger] rows[i]).1) && rows[i].0 == c2.len() - 1 by {
            if i == 0 {
                assert(rows[0] == (d, n));
            } else {
                assert(rows[i] == inner[i - 1]);
            }
        }
    } else {
        assert(rows =~= seq![(d, n)]);
        assert forall|i: int| 0 <= i < rows.len() implies exists|c2: Seq<Seq<char>>|
            shown_below(m, c2) && reach(m, c2) == Some((#[trigger] rows[i]).1) && rows[i].0 == c2.len() - 1 by {
            assert(rows[i] == (d, n));
        }
    }
}

/// Row `row` (a depth and a node) stands for a node shown below `m`, at the
/// depth of its path.
pub open spec fn row_shown(m: NodeModel, row: (nat, NodeModel)) -> bool {
    exists|c: Seq<Seq<char>>| shown_below(m, c) && reach(m, c) == Some(row.1) && row.0 == c.len() - 1
}

/// Every row of the browser stands for a node below the root whose
/// directories on the way are all expanded, at the depth of its path: no
/// row lies below a collapsed directory, at any depth.
pub proof fn law_rows_only_below_expanded(m: NodeModel)
    requires
        wf(m),
    ensures
        forall|i: int|
            #![trigger flattened(m)[i]]
            0 <= i < flattened(m).len() ==> row_shown(m, flattened(m)[i]),
{
    let e = Seq::<Seq<char>>::empty();
    assert(reach(m, e) == Some(m));
    lemma_rows_of_children(m, e, m, m.children.len());
    let t = flat_seq(m.children.take(m.children.len() as int), e.len() as nat);
    assert(m.children.take(m.children.len() as int) =~= m.children);
    assert(t == flattened(m));
    assert forall|i: int| #![trigger flattened(m)[i]] 0 <= i < flattened(m).len() implies row_shown(m, flattened(m)[i]) by {
        assert(t[i] == flattened(m)[i]);
        let c = choose|c: Seq<Seq<char>>| shown_below(m, c) && reach(m, c) == Some(t[i].1) && t[i].0 == c.len() - 1;
        assert(shown_below(m, c) && reach(m, c) == Some(flattened(m)[i].1) && flattened(m)[i].0 == c.len() - 1);
    }
}

proof fn lemma_flat_seq_holds_node(s: Seq<NodeModel>, d: nat, k: int)
    requires
        0 <= k < s.len(),
    ensures
        forall|j: int| 0 <= j < flat_node(s[k], d).len() ==> flat_seq(s, d).contains(#[trigger] flat_node(s[k], d)[j]),
    decreases s.len(),
{
    let a = flat_seq(s.drop_last(), d);
    let b = flat_node(s.last(), d);
    assert(flat_seq(s, d) == a + b);
    if k == s.len() - 1 {
        assert forall|j: int| 0 <= j < flat_node(s[k], d).len() implies flat_seq(s, d).contains(
            #[trigger] flat_node(s[k], d)[j],
        ) by {
            assert(flat_seq(s, d)[a.len() + j] == b[j]);
        }
    } else {
        assert(s.drop_last()[k] == s[k]);
        lemma_flat_seq_holds_node(s.drop_last(), d, k);
        assert forall|j: int| 0 <= j < flat_node(s[k], d).len() implies flat_seq(s, d).contains(
            #[trigger] flat_node(s[k], d)[j],
        ) by {
            let x = flat_node(s[k], d)[j];
            assert(a.contains(x));
            let w = choose|w: int| 0 <= w < a.len() && a[w] == x;
            assert(flat_seq(s, d)[w] == a[w]);
        }
    }
}

/// Every row below a node shown at `c` (that node included) is a row of
/// the browser.
proof fn lemma_shown_rows_listed(m: NodeModel, c: Seq<Seq<char>>)
    requires
        wf(m),
        shown_below(m, c),
    ensures
        forall|j: int|
            0 <= j < flat_node(reach(m, c).unwrap(), (c.len() - 1) as nat).len() ==> flattened(m).contains(
                #[trigger] flat_node(reach(m, c).unwrap(), (c.len() - 1) as nat)[j],
            ),
    decreases c.len(),
{
    let n = reach(m, c).unwrap();
    let d = (c.len() - 1) as nat;
    let last = c[c.len() - 1];
    let parent_path = c.drop_last();
    assert(c =~= parent_path + seq![last]);
    if c.len() == 1 {
        assert(parent_path =~= Seq::<Seq<char>>::empty());
        assert(reach(m, parent_path) == Some(m));
        lemma_reach_append(m, parent_path, seq![last]);
        lemma_reach_cons(m, last, Seq::empty());
        assert(seq![last] + Seq::<Seq<char>>::empty() =~= seq![last]);
        let k = name_slot(m.children, last) as int;
        assert(n == m.children[k]);
        lemma_name_slot(m.children, last);
        lemma_flat_seq_holds_node(m.children, 0, k);
    } else {
        let j0 = c.len() - 1;
        assert(c.take(j0) =~= parent_path);
        let parent = reach(m, parent_path).unwrap();
        assert(parent.is_dir && parent.expanded);
        assert(shown_below(m, parent_path)) by {
            assert forall|j: int| 0 < j < parent_path.len() implies ((#[trigger] reach(m, parent_path.take(j)))
                matches Some(x) && x.is_dir && x.expanded) by {
                assert(parent_path.take(j) =~= c.take(j));
            }
        }
        lemma_shown_rows_listed(m, parent_path);
        lemma_reach_append(m, parent_path, seq![last]);
        lemma_reach_cons(parent, last, Seq::empty());
        assert(seq![last] + Seq::<Seq<char>>::empty() =~= seq![last]);
        let k = name_slot(parent.children, last) as int;
        assert(n == parent.children[k]);
        lemma_name_slot(parent.children, last);
        let pd = (parent_path.len() - 1) as nat;
        assert(pd + 1 == d);
        let prow = flat_node(parent, pd);
        let inner = flat_seq(parent.children, d);
        assert(prow == seq![(pd, parent)] + inner);
        lemma_flat_seq_holds_node(parent.children, d, k);
        assert forall|j: int| 0 <= j < flat_node(n, d).len() implies flattened(m).contains(
            #[trigger] flat_node(n, d)[j],
        ) by {
            let x = flat_node(n, d)[j];
            assert(inner.contains(x));
            let w = choose|w: int| 0 <= w < inner.len() && inner[w] == x;
            assert(prow[w + 1] == x);
            assert(flattened(m).contains(prow[w + 1]));
        }
    }
}

/// Every node below the root whose directories on the way are all expanded
/// is a row of the browser, at the depth of its path.
pub proof fn law_every_shown_node_is_a_row(m: NodeModel, c: Seq<Seq<char>>)
    requires
        wf(m),
        shown_below(m, c),
    ensures
        flattened(m).contains(((c.len() - 1) as nat, reach(m, c).unwrap())),
{
    lemma_shown_rows_listed(m, c);
    let n = reach(m, c).unwrap();
    let d = (c.len() - 1) as nat;
    assert(flat_node(n, d)[0] == (d, n));
}

/// A path sorts before every path it leads to.
proof fn lemma_prefix_sorts_first(a: Seq<Seq<char>>, b: Seq<Seq<char>>)
    requires
        is_prefix(a, b),
        a.len() < b.len(),
    ensures
        path_lt(a, b),
    decreases a.len(),
{
    if a.len() > 0 {
        assert(b.take(a.len() as int)[0] == b[0]);
        assert(a[0] == b[0]);
        assert(b.drop_first().take(a.drop_first().len() as int) =~= a.drop_first());
        lemma_prefix_sorts_first(a.drop_first(), b.drop_first());
    }
}

/// Two paths through the same `base` that part at the next component sort
/// by that component.
proof fn lemma_parting_paths(base: Seq<Seq<char>>, a: Seq<Seq<char>>, b: Seq<Seq<char>>)
    requires
        is_prefix(base, a),
        is_prefix(base, b),
        a.len() > base.len(),
        b.len() > base.len(),
        chars_lt(a[base.len() as int], b[base.len() as int]),
    ensures
        path_lt(a, b),
    decreases base.len(),
{
    if base.len() == 0 {
        lemma_chars_lt_irreflexive(a[0]);
    } else {
        assert(a.take(base.len() as int)[0] == a[0]);
        assert(b.take(base.len() as int)[0] == b[0]);
        assert(a[0] == b[0]);
        assert(a.drop_first().take(base.drop_first().len() as int) =~= base.drop_first());
        assert(b.drop_first().take(base.drop_first().len() as int) =~= base.drop_first());
        assert(a.drop_first()[base.len() - 1] == a[base.len() as int]);
        assert(b.drop_first()[base.len() - 1] == b[base.len() as int]);
        lemma_parting_paths(base.drop_first(), a.drop_first(), b.drop_first());
    }
}

proof fn lemma_prefix_push(base: Seq<Seq<char>>, x: Seq<char>, p: Seq<Seq<char>>)
    requires
        is_prefix(base.push(x), p),
    ensures
        is_prefix(base, p),
        p.len() > base.len(),
        p[base.len() as int] == x,
{
    assert(p.take(base.len() + 1int)[base.len() as int] == x);
    assert(p.take(base.len() as int) =~= base);
}

proof fn lemma_prefix_trans(a: Seq<Seq<char>>, b: Seq<Seq<char>>, c: Seq<Seq<char>>)
    requires
        is_prefix(a, b),
        is_prefix(b, c),
    ensures
        is_prefix(a, c),
{
    assert(c.take(a.len() as int) =~= b.take(a.len() as int));
}

/// The rows below node `x` all lie at or below its path, in strictly
/// increasing path order.
proof fn lemma_node_rows_sorted(x: NodeModel, d: nat)
    requires
        wf(x),
        paths_consistent(x),
    ensures
        forall|i: int| 0 <= i < flat_node(x, d).len() ==> is_prefix(x.rel_path, (#[trigger] flat_node(x, d)[i]).1.rel_path),
        forall|i: int, j: int|
            0 <= i < j < flat_node(x, d).len() ==> path_lt(
                (#[trigger] flat_node(x, d)[i]).1.rel_path,
                (#[trigger] flat_node(x, d)[j]).1.rel_path,
            ),
    decreases x, 1nat, 0nat,
{
    let rows = flat_node(x, d);
    assert(x.rel_path.take(x.rel_path.len() as int) =~= x.rel_path);
    if x.is_dir && x.expanded {
        lemma_children_rows_sorted(x, x.children.len(), d + 1);
        assert(x.children.take(x.children.len() as int) =~= x.children);
        let inner = flat_seq(x.children, d + 1);
        assert(rows == seq![(d, x)] + inner);
        assert forall|i: int| 0 <= i < rows.len() implies is_prefix(x.rel_path, (#[trigger] rows[i]).1.rel_path) by {
            if i > 0 {
                assert(rows[i] == inner[i - 1]);
            }
        }
        assert forall|i: int, j: int| 0 <= i < j < rows.len() implies path_lt(
            (#[trigger] rows[i]).1.rel_path,
            (#[trigger] rows[j]).1.rel_path,
        ) by {
            assert(rows[j] == inner[j - 1]);
            if i == 0 {
                lemma_prefix_sorts_first(x.rel_path, inner[j - 1].1.rel_path);
            } else {
                assert(rows[i] == inner[i - 1]);
            }
        }
    } else {
        assert(rows =~= seq![(d, x)]);
    }
}

/// The rows of the first `k` children of `x` all lie strictly below its
/// path, at a child no later than the `k`-th, in strictly increasing path
/// order.
proof fn lemma_children_rows_sorted(x: NodeModel, k: nat, dd: nat)
    requires
        wf(x),
        paths_consistent(x),
        k <= x.children.len(),
    ensures
        forall|i: int|
            0 <= i < flat_seq(x.children.take(k as int), dd).len() ==> {
                let p = (#[trigger] flat_seq(x.children.take(k as int), dd)[i]).1.rel_path;
                &&& is_prefix(x.rel_path, p)
                &&& p.len() > x.rel_path.len()
                &&& (p[x.rel_path.len() as int] == x.children[k - 1].name || chars_lt(
                    p[x.rel_path.len() as int],
                    x.children[k - 1].name,
                ))
            },
        forall|i: int, j: int|
            0 <= i < j < flat_seq(x.children.take(k as int), dd).len() ==> path_lt(
                (#[trigger] flat_seq(x.children.take(k as int), dd)[i]).1.rel_path,
                (#[trigger] flat_seq(x.children.take(k as int), dd)[j]).1.rel_path,
            ),
    decreases x, 0nat, k,
{
    let s = x.children;
    let base = x.rel_path;
    let bl = base.len() as int;
    if k == 0 {
        assert(s.take(0) =~= Seq::<NodeModel>::empty());
    } else {
        let prefix = s.take(k as int);
        assert(prefix.drop_last() =~= s.take(k - 1));
        assert(prefix.last() == s[k - 1]);
        let y = s[k - 1];
        assert(wf(y));
        assert(node_placed(base, y) && paths_consistent(y));
        lemma_children_rows_sorted(x, (k - 1) as nat, dd);
        lemma_node_rows_sorted(y, dd);
        let a = flat_seq(s.take(((k - 1) as nat) as int), dd);
        let c = flat_node(y, dd);
        let rows = flat_seq(prefix, dd);
        assert(rows == a + c);
        assert forall|i: int| 0 <= i < c.len() implies {
            let p = (#[trigger] c[i]).1.rel_path;
            is_prefix(base, p) && p.len() > bl && p[bl] == y.name
        } by {
            lemma_prefix_push(base, y.name, c[i].1.rel_path);
        }
        assert forall|i: int| 0 <= i < a.len() implies chars_lt((#[trigger] a[i]).1.rel_path[bl], y.name) by {
            let p = a[i].1.rel_path;
            assert(chars_lt(s[k - 2].name, s[k - 1].name));
            if p[bl] != s[k - 2].name {
                lemma_chars_lt_transitive(p[bl], s[k - 2].name, y.name);
            }
        }
        assert forall|i: int| 0 <= i < rows.len() implies {
            let p = (#[trigger] rows[i]).1.rel_path;
            &&& is_prefix(base, p)
            &&& p.len() > bl
            &&& (p[bl] == s[k - 1].name || chars_lt(p[bl], s[k - 1].name))
        } by {
            if i < a.len() {
                assert(rows[i] == a[i]);
            } else {
                assert(rows[i] == c[i - a.len()]);
            }
        }
        assert forall|i: int, j: int| 0 <= i < j < rows.len() implies path_lt(
            (#[trigger] rows[i]).1.rel_path,
            (#[trigger] rows[j]).1.rel_path,
        ) by {
            if j < a.len() {
                assert(rows[i] == a[i] && rows[j] == a[j]);
            } else if i >= a.len() {
                assert(rows[i] == c[i - a.len()] && rows[j] == c[j - a.len()]);
            } else {
                assert(rows[i] == a[i] && rows[j] == c[j - a.len()]);
                lemma_parting_paths(base, a[i].1.rel_path, c[j - a.len()].1.rel_path);
            }
        }
    }
}

/// The rows of the browser come in strictly increasing path order: each
/// directory before what lies below it, and the children of a directory in
/// name order.
pub proof fn law_rows_in_path_order(m: NodeModel)
    requires
        wf(m),
        paths_consistent(m),
    ensures
        forall|i: int, j: int|
            0 <= i < j < flattened(m).len() ==> path_lt(
                (#[trigger] flattened(m)[i]).1.rel_path,
                (#[trigger] flattened(m)[j]).1.rel_path,
            ),
{
    lemma_children_rows_sorted(m, m.children.len(), 0);
    assert(m.children.take(m.children.len() as int) =~= m.children);
}

} // verus!
