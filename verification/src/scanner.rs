//! Comparing a source tree with a destination tree: which files differ and why.
use vstd::prelude::*;

use crate::glob::{excluded_by, in_excluded_dir, is_in_excluded_dir};
use crate::text::{compare_paths, lemma_path_lt_transitive, path_lt, path_view, Order};

verus! {

/// Why a source file is listed as a difference.
///
/// Times are modification times in nanoseconds since the Unix epoch
/// (negative before it).
#[derive(Clone, Debug)]
pub enum DiffReason {
    /// No file of that relative path exists in the destination.
    Missing,
    /// The source copy is newer and its content differs.
    Newer { source_mod: i128, dest_mod: i128 },
}

/// One source file that differs from the destination.
#[derive(Clone, Debug)]
pub struct FileDiff {
    /// Path relative to the source root, one entry per component.
    pub rel_path: Vec<String>,
    pub size: u64,
    pub modified: Option<i128>,
    pub reason: DiffReason,
}

/// What a `FileDiff` says, as plain values.
pub struct DiffModel {
    pub rel_path: Seq<Seq<char>>,
    pub size: u64,
    pub modified: Option<i128>,
    pub reason: DiffReason,
}

impl View for FileDiff {
    type V = DiffModel;

    open spec fn view(&self) -> DiffModel {
        DiffModel {
            rel_path: path_view(self.rel_path@),
            size: self.size,
            modified: self.modified,
            reason: self.reason,
        }
    }
}

/// The total size of a list of differences.
pub open spec fn sum_sizes(ds: Seq<DiffModel>) -> nat
    decreases ds.len(),
{
    if ds.len() == 0 {
        0
    } else {
        sum_sizes(ds.drop_last()) + ds.last().size as nat
    }
}

/// A prefix of a list of differences is no larger than the whole.
pub proof fn lemma_sum_sizes_prefix(ds: Seq<DiffModel>, j: int)
    requires
        0 <= j <= ds.len(),
    ensures
        sum_sizes(ds.take(j)) <= sum_sizes(ds),
    decreases ds.len(),
{
    if j < ds.len() {
        assert(ds.drop_last().take(j) =~= ds.take(j));
        lemma_sum_sizes_prefix(ds.drop_last(), j);
    } else {
        assert(ds.take(j) =~= ds);
    }
}

/// The total size of `diffs`, where it fits 64 bits.
pub fn total_size(diffs: &Vec<FileDiff>) -> (r: Option<u64>)
    ensures
        match r {
            Some(t) => t == sum_sizes(diffs@.map_values(|d: FileDiff| d@)),
            None => sum_sizes(diffs@.map_values(|d: FileDiff| d@)) > u64::MAX,
        },
{
    let ghost ds = diffs@.map_values(|d: FileDiff| d@);
    let mut total: u64 = 0;
    let mut i: usize = 0;
    assert(ds.take(0) =~= Seq::<DiffModel>::empty());
    while i < diffs.len()
        invariant
            i <= diffs@.len(),
            ds == diffs@.map_values(|d: FileDiff| d@),
            total == sum_sizes(ds.take(i as int)),
        decreases diffs@.len() - i,
    {
        assert(ds.take(i + 1).drop_last() =~= ds.take(i as int));
        assert(ds.take(i + 1).last() == diffs@[i as int]@);
        match total.checked_add(diffs[i].size) {
            Some(t) => {
                total = t;
            },
            None => {
                proof {
                    lemma_sum_sizes_prefix(ds, i + 1);
                }
                return None;
            },
        }
        i = i + 1;
    }
    assert(ds.take(i as int) =~= ds);
    Some(total)
}

/// A copy of a relative path, component by component.
pub fn clone_path(p: &Vec<String>) -> (r: Vec<String>)
    ensures
        r@ == p@,
{
    let mut r: Vec<String> = Vec::new();
    let mut i: usize = 0;
    while i < p.len()
        invariant
            i <= p@.len(),
            r@ == p@.take(i as int),
        decreases p@.len() - i,
    {
        r.push(p[i].clone());
        assert(r@ =~= p@.take(i + 1));
        i = i + 1;
    }
    assert(r@ =~= p@);
    r
}

impl DiffReason {
    pub fn duplicate(&self) -> (r: Self)
        ensures
            r == *self,
    {
        match self {
            DiffReason::Missing => DiffReason::Missing,
            DiffReason::Newer { source_mod, dest_mod } => DiffReason::Newer {
                source_mod: *source_mod,
                dest_mod: *dest_mod,
            },
        }
    }
}

impl FileDiff {
    /// A copy with the same path, size, time and reason.
    pub fn duplicate(&self) -> (r: Self)
        ensures
            r@ == self@,
            r.rel_path@ == self.rel_path@,
    {
        FileDiff {
            rel_path: clone_path(&self.rel_path),
            size: self.size,
            modified: self.modified,
            reason: self.reason.duplicate(),
        }
    }
}


/// A file found in the source tree.
#[derive(Clone, Debug)]
pub struct SourceFile {
    /// Path relative to the source root, one entry per component.
    pub rel_path: Vec<String>,
    pub size: u64,
    /// Modification time, nanoseconds since the Unix epoch.
    pub modified: i128,
}

/// A file found in the destination tree.
#[derive(Clone, Debug)]
pub struct DestFile {
    /// Path relative to the destination root, one entry per component.
    pub rel_path: Vec<String>,
    /// Modification time, nanoseconds since the Unix epoch.
    pub modified: i128,
}

/// The modification times of the destination files, ordered by path for
/// lookup. No path occurs twice.
pub struct DestIndex {
    entries: Vec<DestFile>,
}

/// The source copy is newer than the destination copy, so its content is
/// compared.
pub open spec fn source_newer(source_mod: i128, dest_mod: i128) -> bool {
    source_mod > dest_mod
}

/// The difference that a source file makes, given the modification time of
/// the destination file at its path (if any) and the content hashes of the
/// source and destination files (where reading them succeeded):
/// - no destination file: the file is missing;
/// - source copy not newer (same time or older): none;
/// - equal hashes (both unreadable counts as equal): none;
/// - else: the source copy is newer.
pub open spec fn diff_of(
    file: SourceFile,
    dest_mod: Option<i128>,
    hashes: (Option<u64>, Option<u64>),
) -> Option<DiffModel> {
    let made = |reason: DiffReason|
        DiffModel {
            rel_path: path_view(file.rel_path@),
            size: file.size,
            modified: Some(file.modified),
            reason: reason,
        };
    match dest_mod {
        None => Some(made(DiffReason::Missing)),
        Some(dm) => if !source_newer(file.modified, dm) {
            None
        } else if hashes.0 == hashes.1 {
            None
        } else {
            Some(made(DiffReason::Newer { source_mod: file.modified, dest_mod: dm }))
        },
    }
}

/// The destination entries are strictly increasing by path.
pub open spec fn dest_sorted(s: Seq<DestFile>) -> bool {
    forall|i: int, j: int|
        0 <= i < j < s.len() ==> path_lt(
            path_view(#[trigger] s[i].rel_path@),
            path_view(#[trigger] s[j].rel_path@),
        )
}

/// The modification time that `entries` records for path `p`.
pub open spec fn dest_mod_of(entries: Seq<DestFile>, p: Seq<Seq<char>>) -> Option<i128> {
    if exists|i: int| 0 <= i < entries.len() && path_view(#[trigger] entries[i].rel_path@) == p {
        let i = choose|i: int| 0 <= i < entries.len() && path_view(#[trigger] entries[i].rel_path@) == p;
        Some(entries[i].modified)
    } else {
        None
    }
}

/// The differences of the source files, in their order: one for each file
/// that lies below no excluded directory and for which `diff_of` gives one.
pub open spec fn compared(
    files: Seq<SourceFile>,
    dest: Seq<DestFile>,
    hashes: Seq<(Option<u64>, Option<u64>)>,
    exclude: Seq<String>,
) -> Seq<DiffModel>
    decreases files.len(),
{
    if files.len() == 0 {
        Seq::empty()
    } else {
        let n = files.len() - 1;
        let rest = compared(files.drop_last(), dest, hashes, exclude);
        if in_excluded_dir(exclude, path_view(files[n].rel_path@)) {
            rest
        } else {
            match diff_of(files[n], dest_mod_of(dest, path_view(files[n].rel_path@)), hashes[n]) {
                Some(d) => rest.push(d),
                None => rest,
            }
        }
    }
}

/// Whether the source copy is newer, so that its content is compared.
pub fn needs_content_check(source_mod: i128, dest_mod: i128) -> (r: bool)
    ensures
        r == source_newer(source_mod, dest_mod),
{
    source_mod > dest_mod
}

/// The path of a destination file as plain values.
pub open spec fn dest_key(f: DestFile) -> Seq<Seq<char>> {
    path_view(f.rel_path@)
}

/// The modification time recorded for each path of `s`, a later file of a
/// path overriding an earlier one.
pub open spec fn mods_of(s: Seq<DestFile>) -> Map<Seq<Seq<char>>, i128>
    decreases s.len(),
{
    if s.len() == 0 {
        Map::empty()
    } else {
        mods_of(s.drop_last()).insert(dest_key(s.last()), s.last().modified)
    }
}

/// The modification time of the last file of `s` at path `p`.
pub open spec fn latest_mod(s: Seq<DestFile>, p: Seq<Seq<char>>) -> Option<i128> {
    if mods_of(s).dom().contains(p) {
        Some(mods_of(s)[p])
    } else {
        None
    }
}

proof fn lemma_mods_absent(s: Seq<DestFile>, p: Seq<Seq<char>>)
    requires
        forall|k: int| 0 <= k < s.len() ==> dest_key(#[trigger] s[k]) != p,
    ensures
        !mods_of(s).dom().contains(p),
    decreases s.len(),
{
    if s.len() > 0 {
        assert forall|k: int| 0 <= k < s.drop_last().len() implies dest_key(#[trigger] s.drop_last()[k]) != p by {
            assert(s.drop_last()[k] == s[k]);
        }
        lemma_mods_absent(s.drop_last(), p);
        assert(dest_key(s[s.len() - 1]) != p);
    }
}

proof fn lemma_mods_concat(x: Seq<DestFile>, y: Seq<DestFile>)
    ensures
        mods_of(x + y) == mods_of(x).union_prefer_right(mods_of(y)),
    decreases y.len(),
{
    if y.len() == 0 {
        assert(x + y =~= x);
        assert(mods_of(x).union_prefer_right(mods_of(y)) =~= mods_of(x));
    } else {
        lemma_mods_concat(x, y.drop_last());
        assert((x + y).drop_last() =~= x + y.drop_last());
        assert((x + y).last() == y.last());
        assert(mods_of(x + y) =~= mods_of(x).union_prefer_right(mods_of(y)));
    }
}

/// In a strictly sorted list every path occurs at most once, so the lookup
/// by path gives the time recorded for it.
proof fn lemma_sorted_lookup(s: Seq<DestFile>, p: Seq<Seq<char>>)
    requires
        dest_sorted(s),
    ensures
        dest_mod_of(s, p) == latest_mod(s, p),
    decreases s.len(),
{
    if s.len() > 0 {
        let t = s.drop_last();
        let n = s.len() - 1;
        assert forall|i: int, j: int| 0 <= i < j < t.len() implies path_lt(
            path_view(#[trigger] t[i].rel_path@),
            path_view(#[trigger] t[j].rel_path@),
        ) by {
            assert(t[i] == s[i] && t[j] == s[j]);
        }
        lemma_sorted_lookup(t, p);
        if dest_key(s[n]) == p {
            let i = choose|i: int| 0 <= i < s.len() && path_view(#[trigger] s[i].rel_path@) == p;
            if i != n {
                assert(path_lt(path_view(s[i].rel_path@), path_view(s[n].rel_path@)));
                crate::text::lemma_path_lt_irreflexive(p);
            }
        } else {
            if exists|i: int| 0 <= i < s.len() && path_view(#[trigger] s[i].rel_path@) == p {
                let i = choose|i: int| 0 <= i < s.len() && path_view(#[trigger] s[i].rel_path@) == p;
                assert(t[i] == s[i]);
                let i2 = choose|i: int| 0 <= i < t.len() && path_view(#[trigger] t[i].rel_path@) == p;
                assert(t[i2] == s[i2]);
                if i != i2 {
                    if i < i2 {
                        assert(path_lt(path_view(s[i].rel_path@), path_view(s[i2].rel_path@)));
                    } else {
                        assert(path_lt(path_view(s[i2].rel_path@), path_view(s[i].rel_path@)));
                    }
                    crate::text::lemma_path_lt_irreflexive(p);
                }
            } else {
                assert forall|i: int| 0 <= i < t.len() implies path_view(#[trigger] t[i].rel_path@) != p by {
                    assert(t[i] == s[i]);
                }
            }
        }
    }
}

/// Merges two lists strictly sorted by path into one; where both hold a
/// path, the entry of `b` is kept.
fn merge_dest(a: Vec<DestFile>, b: Vec<DestFile>) -> (r: Vec<DestFile>)
    requires
        dest_sorted(a@),
        dest_sorted(b@),
    ensures
        dest_sorted(r@),
        mods_of(r@) == mods_of(a@).union_prefer_right(mods_of(b@)),
{
    let ghost sa = a@;
    let ghost sb = b@;
    let mut a = a;
    let mut b = b;
    let mut out: Vec<DestFile> = Vec::new();
    let mut i: usize = 0;
    let mut j: usize = 0;
    assert(sa.take(0) =~= Seq::<DestFile>::empty());
    assert(sb.take(0) =~= Seq::<DestFile>::empty());
    assert(mods_of(out@) =~= mods_of(sa.take(0)).union_prefer_right(mods_of(sb.take(0))));
    while i < a.len() || j < b.len()
        invariant
            i <= sa.len(),
            j <= sb.len(),
            a@.len() == sa.len(),
            b@.len() == sb.len(),
            dest_sorted(sa),
            dest_sorted(sb),
            forall|k: int| i <= k < sa.len() ==> #[trigger] a@[k] == sa[k],
            forall|k: int| j <= k < sb.len() ==> #[trigger] b@[k] == sb[k],
            dest_sorted(out@),
            i < sa.len() ==> forall|k: int| 0 <= k < out@.len() ==> path_lt(dest_key(#[trigger] out@[k]), dest_key(sa[i as int])),
            j < sb.len() ==> forall|k: int| 0 <= k < out@.len() ==> path_lt(dest_key(#[trigger] out@[k]), dest_key(sb[j as int])),
            i < sa.len() ==> forall|k: int| 0 <= k < j ==> path_lt(dest_key(#[trigger] sb[k]), dest_key(sa[i as int])),
            j < sb.len() ==> forall|k: int| 0 <= k < i ==> path_lt(dest_key(#[trigger] sa[k]), dest_key(sb[j as int])),
            mods_of(out@) == mods_of(sa.take(i as int)).union_prefer_right(mods_of(sb.take(j as int))),
        decreases (sa.len() - i) + (sb.len() - j),
    {
        let ghost before = out@;
        let ghost ma = mods_of(sa.take(i as int));
        let ghost mb = mods_of(sb.take(j as int));
        let take_a: bool;
        let take_b: bool;
        if i >= a.len() {
            take_a = false;
            take_b = true;
        } else if j >= b.len() {
            take_a = true;
            take_b = false;
        } else {
            match compare_paths(&a[i].rel_path, &b[j].rel_path) {
                Order::Less => {
                    take_a = true;
                    take_b = false;
                },
                Order::Greater => {
                    take_a = false;
                    take_b = true;
                },
                Order::Equal => {
                    take_a = true;
                    take_b = true;
                },
            }
        }
        if take_a && !take_b {
            // the source of a leads
            let ghost x = sa[i as int];
            let mut moved = DestFile { rel_path: Vec::new(), modified: 0 };
            std::mem::swap(&mut a[i], &mut moved);
            assert(moved == x);
            proof {
                assert forall|k: int| 0 <= k < sb.take(j as int).len() implies dest_key(#[trigger] sb.take(j as int)[k]) != dest_key(x) by {
                    assert(sb.take(j as int)[k] == sb[k]);
                    crate::text::lemma_path_lt_irreflexive(dest_key(x));
                }
                lemma_mods_absent(sb.take(j as int), dest_key(x));
                assert(sa.take(i + 1).drop_last() =~= sa.take(i as int));
                assert(sa.take(i + 1).last() == x);
            }
            out.push(moved);
            i = i + 1;
            proof {
                assert(mods_of(out@) =~= mods_of(sa.take(i as int)).union_prefer_right(mods_of(sb.take(j as int)))) by {
                    assert(out@.drop_last() =~= before);
                }
                assert forall|k1: int, k2: int| 0 <= k1 < k2 < out@.len() implies path_lt(
                    path_view(#[trigger] out@[k1].rel_path@),
                    path_view(#[trigger] out@[k2].rel_path@),
                ) by {
                    if k2 < before.len() {
                        assert(out@[k1] == before[k1] && out@[k2] == before[k2]);
                    } else {
                        assert(out@[k1] == before[k1]);
                    }
                }
                if i < sa.len() {
                    assert forall|k: int| 0 <= k < out@.len() implies path_lt(dest_key(#[trigger] out@[k]), dest_key(sa[i as int])) by {
                        assert(path_lt(dest_key(sa[i - 1]), dest_key(sa[i as int])));
                        if k < before.len() {
                            assert(out@[k] == before[k]);
                            lemma_path_lt_transitive(dest_key(before[k]), dest_key(x), dest_key(sa[i as int]));
                        }
                    }
                    assert forall|k: int| 0 <= k < j implies path_lt(dest_key(#[trigger] sb[k]), dest_key(sa[i as int])) by {
                        assert(path_lt(dest_key(sa[i - 1]), dest_key(sa[i as int])));
                        lemma_path_lt_transitive(dest_key(sb[k]), dest_key(x), dest_key(sa[i as int]));
                    }
                }
                if j < sb.len() {
                    assert forall|k: int| 0 <= k < out@.len() implies path_lt(dest_key(#[trigger] out@[k]), dest_key(sb[j as int])) by {
                        if k < before.len() {
                            assert(out@[k] == before[k]);
                        }
                    }
                }
            }
        } else if take_b && !take_a {
            let ghost y = sb[j as int];
            let mut moved = DestFile { rel_path: Vec::new(), modified: 0 };
            std::mem::swap(&mut b[j], &mut moved);
            assert(moved == y);
            proof {
                assert(sb.take(j + 1).drop_last() =~= sb.take(j as int));
                assert(sb.take(j + 1).last() == y);
            }
            out.push(moved);
            j = j + 1;
            proof {
                assert(mods_of(out@) =~= mods_of(sa.take(i as int)).union_prefer_right(mods_of(sb.take(j as int)))) by {
                    assert(out@.drop_last() =~= before);
                }
                assert forall|k1: int, k2: int| 0 <= k1 < k2 < out@.len() implies path_lt(
                    path_view(#[trigger] out@[k1].rel_path@),
                    path_view(#[trigger] out@[k2].rel_path@),
                ) by {
                    if k2 < before.len() {
                        assert(out@[k1] == before[k1] && out@[k2] == before[k2]);
                    } else {
                        assert(out@[k1] == before[k1]);
                    }
                }
                if j < sb.len() {
                    assert forall|k: int| 0 <= k < out@.len() implies path_lt(dest_key(#[trigger] out@[k]), dest_key(sb[j as int])) by {
                        assert(path_lt(dest_key(sb[j - 1]), dest_key(sb[j as int])));
                        if k < before.len() {
                            assert(out@[k] == before[k]);
                            lemma_path_lt_transitive(dest_key(before[k]), dest_key(y), dest_key(sb[j as int]));
                        }
                    }
                    assert forall|k: int| 0 <= k < i implies path_lt(dest_key(#[trigger] sa[k]), dest_key(sb[j as int])) by {
                        assert(path_lt(dest_key(sb[j - 1]), dest_key(sb[j as int])));
                        lemma_path_lt_transitive(dest_key(sa[k]), dest_key(y), dest_key(sb[j as int]));
                    }
                }
                if i < sa.len() {
                    assert forall|k: int| 0 <= k < out@.len() implies path_lt(dest_key(#[trigger] out@[k]), dest_key(sa[i as int])) by {
                        if k < before.len() {
                            assert(out@[k] == before[k]);
                        }
                    }
                }
            }
        } else {
            // the same path in both: the entry of b is kept
            let ghost x = sa[i as int];
            let ghost y = sb[j as int];
            assert(dest_key(x) == dest_key(y));
            let mut moved = DestFile { rel_path: Vec::new(), modified: 0 };
            std::mem::swap(&mut b[j], &mut moved);
            assert(moved == y);
            proof {
                assert(sa.take(i + 1).drop_last() =~= sa.take(i as int));
                assert(sa.take(i + 1).last() == x);
                assert(sb.take(j + 1).drop_last() =~= sb.take(j as int));
                assert(sb.take(j + 1).last() == y);
            }
            out.push(moved);
            i = i + 1;
            j = j + 1;
            proof {
                assert(mods_of(out@) =~= mods_of(sa.take(i as int)).union_prefer_right(mods_of(sb.take(j as int)))) by {
                    assert(out@.drop_last() =~= before);
                }
                assert forall|k1: int, k2: int| 0 <= k1 < k2 < out@.len() implies path_lt(
                    path_view(#[trigger] out@[k1].rel_path@),
                    path_view(#[trigger] out@[k2].rel_path@),
                ) by {
                    if k2 < before.len() {
                        assert(out@[k1] == before[k1] && out@[k2] == before[k2]);
                    } else {
                        assert(out@[k1] == before[k1]);
                    }
                }
                if i < sa.len() {
                    assert(path_lt(dest_key(sa[i - 1]), dest_key(sa[i as int])));
                    assert forall|k: int| 0 <= k < out@.len() implies path_lt(dest_key(#[trigger] out@[k]), dest_key(sa[i as int])) by {
                        if k < before.len() {
                            assert(out@[k] == before[k]);
                            lemma_path_lt_transitive(dest_key(before[k]), dest_key(x), dest_key(sa[i as int]));
                        }
                    }
                    assert forall|k: int| 0 <= k < j implies path_lt(dest_key(#[trigger] sb[k]), dest_key(sa[i as int])) by {
                        if k < j - 1 {
                            lemma_path_lt_transitive(dest_key(sb[k]), dest_key(x), dest_key(sa[i as int]));
                        }
                    }
                }
                if j < sb.len() {
                    assert(path_lt(dest_key(sb[j - 1]), dest_key(sb[j as int])));
                    assert forall|k: int| 0 <= k < out@.len() implies path_lt(dest_key(#[trigger] out@[k]), dest_key(sb[j as int])) by {
                        if k < before.len() {
                            assert(out@[k] == before[k]);
                            lemma_path_lt_transitive(dest_key(before[k]), dest_key(y), dest_key(sb[j as int]));
                        }
                    }
                    assert forall|k: int| 0 <= k < i implies path_lt(dest_key(#[trigger] sa[k]), dest_key(sb[j as int])) by {
                        if k < i - 1 {
                            lemma_path_lt_transitive(dest_key(sa[k]), dest_key(y), dest_key(sb[j as int]));
                        }
                    }
                }
            }
        }
    }
    assert(sa.take(i as int) =~= sa);
    assert(sb.take(j as int) =~= sb);
    out
}

/// Sorts `v` by path, keeping one entry per path: the last of `v`.
fn sort_dest(v: Vec<DestFile>) -> (r: Vec<DestFile>)
    ensures
        dest_sorted(r@),
        mods_of(r@) == mods_of(v@),
    decreases v@.len(),
{
    if v.len() <= 1 {
        return v;
    }
    let ghost whole = v@;
    let mut left = v;
    let mid = left.len() / 2;
    let right = left.split_off(mid);
    proof {
        assert(whole =~= left@ + right@);
        lemma_mods_concat(left@, right@);
    }
    let l = sort_dest(left);
    let r = sort_dest(right);
    merge_dest(l, r)
}

impl DestIndex {
    pub closed spec fn entries(&self) -> Seq<DestFile> {
        self.entries@
    }

    pub closed spec fn wf(&self) -> bool {
        dest_sorted(self.entries@)
    }

    /// An index of `files`, in any order; where a path occurs more than
    /// once, the later file's time is the one recorded.
    pub fn from_files(files: Vec<DestFile>) -> (ix: DestIndex)
        ensures
            ix.wf(),
            forall|p: Seq<Seq<char>>| #[trigger] dest_mod_of(ix.entries(), p) == latest_mod(files@, p),
    {
        let sorted = sort_dest(files);
        proof {
            assert forall|p: Seq<Seq<char>>| #[trigger] dest_mod_of(sorted@, p) == latest_mod(sorted@, p) by {
                lemma_sorted_lookup(sorted@, p);
            }
        }
        DestIndex { entries: sorted }
    }

    /// The modification time recorded for path `rel_path`, found by binary search.
    pub fn lookup(&self, rel_path: &Vec<String>) -> (r: Option<i128>)
        requires
            self.wf(),
        ensures
            r == dest_mod_of(self.entries(), path_view(rel_path@)),
    {
        let ghost p = path_view(rel_path@);
        let ghost s = self.entries@;
        let mut lo: usize = 0;
        let mut hi: usize = self.entries.len();
        while lo < hi
            invariant
                lo <= hi <= s.len(),
                s == self.entries@,
                dest_sorted(s),
                p == path_view(rel_path@),
                forall|k: int| 0 <= k < lo ==> path_lt(path_view(#[trigger] s[k].rel_path@), p),
                forall|k: int| hi <= k < s.len() ==> path_lt(p, path_view(#[trigger] s[k].rel_path@)),
            decreases hi - lo,
        {
            let mid = lo + (hi - lo) / 2;
            match compare_paths(&self.entries[mid].rel_path, rel_path) {
                Order::Equal => {
                    proof {
                        assert(dest_mod_of(s, p) == Some(s[mid as int].modified)) by {
                            assert(path_view(s[mid as int].rel_path@) == p);
                            let i = choose|i: int| 0 <= i < s.len() && path_view(#[trigger] s[i].rel_path@) == p;
                            if i != mid {
                                if i < mid {
                                    assert(path_lt(path_view(s[i].rel_path@), path_view(s[mid as int].rel_path@)));
                                } else {
                                    assert(path_lt(path_view(s[mid as int].rel_path@), path_view(s[i].rel_path@)));
                                }
                                crate::text::lemma_path_lt_irreflexive(p);
                            }
                        }
                    }
                    return Some(self.entries[mid].modified);
                },
                Order::Less => {
                    assert forall|k: int| 0 <= k < mid + 1 implies path_lt(path_view(#[trigger] s[k].rel_path@), p) by {
                        if k < mid {
                            lemma_path_lt_transitive(path_view(s[k].rel_path@), path_view(s[mid as int].rel_path@), p);
                        }
                    }
                    lo = mid + 1;
                },
                Order::Greater => {
                    assert forall|k: int| mid <= k < s.len() implies path_lt(p, path_view(#[trigger] s[k].rel_path@)) by {
                        if k > mid {
                            lemma_path_lt_transitive(p, path_view(s[mid as int].rel_path@), path_view(s[k].rel_path@));
                        }
                    }
                    hi = mid;
                },
            }
        }
        assert forall|k: int| 0 <= k < s.len() implies path_view(#[trigger] s[k].rel_path@) != p by {
            if k < lo {
                crate::text::lemma_path_lt_irreflexive(p);
            } else {
                crate::text::lemma_path_lt_irreflexive(p);
            }
        }
        None
    }
}

/// The difference that `file` makes (see `diff_of`).
pub fn classify_entry(
    file: &SourceFile,
    dest_mod: Option<i128>,
    hashes: (Option<u64>, Option<u64>),
) -> (r: Option<FileDiff>)
    ensures
        match r {
            Some(d) => diff_of(*file, dest_mod, hashes) == Some(d@),
            None => diff_of(*file, dest_mod, hashes) is None,
        },
{
    let reason = match dest_mod {
        None => DiffReason::Missing,
        Some(dm) => {
            if !needs_content_check(file.modified, dm) {
                return None;
            }
            if hashes.0 == hashes.1 {
                return None;
            }
            DiffReason::Newer { source_mod: file.modified, dest_mod: dm }
        },
    };
    Some(FileDiff {
        rel_path: clone_path(&file.rel_path),
        size: file.size,
        modified: Some(file.modified),
        reason: reason,
    })
}

/// The files of the source tree that are missing from the destination or
/// newer there with different content, in the order of `source_files`,
/// leaving out those below a directory that `exclude` excludes (patterns
/// exclude directories; a file's own name is not tested).
/// `hashes[i]` holds the content hashes of the source and destination copies
/// of `source_files[i]`; they are read only where the source copy is newer.
pub fn compare_dirs(
    source_files: &Vec<SourceFile>,
    destination: &DestIndex,
    hashes: &Vec<(Option<u64>, Option<u64>)>,
    exclude: &[String],
) -> (diffs: Vec<FileDiff>)
    requires
        destination.wf(),
        hashes@.len() == source_files@.len(),
    ensures
        diffs@.map_values(|d: FileDiff| d@) == compared(
            source_files@,
            destination.entries(),
            hashes@,
            exclude@,
        ),
{
    let ghost files = source_files@;
    let ghost dest = destination.entries();
    let mut out: Vec<FileDiff> = Vec::new();
    let mut i: usize = 0;
    assert(files.take(0) =~= Seq::<SourceFile>::empty());
    assert(out@.map_values(|d: FileDiff| d@) =~= Seq::<DiffModel>::empty());
    while i < source_files.len()
        invariant
            i <= files.len(),
            files == source_files@,
            dest == destination.entries(),
            destination.wf(),
            hashes@.len() == files.len(),
            out@.map_values(|d: FileDiff| d@) == compared(files.take(i as int), dest, hashes@, exclude@),
        decreases files.len() - i,
    {
        let file = &source_files[i];
        let ghost before = out@;
        assert(files.take(i + 1).drop_last() =~= files.take(i as int));
        assert(files.take(i + 1)[i as int] == files[i as int]);
        if is_in_excluded_dir(&file.rel_path, exclude) {
            i = i + 1;
            continue;
        }
        let dm = destination.lookup(&file.rel_path);
        let r = classify_entry(file, dm, hashes[i]);
        match r {
            Some(d) => {
                out.push(d);
                assert(out@.map_values(|d: FileDiff| d@) =~= before.map_values(|d: FileDiff| d@).push(d@));
            },
            None => {},
        }
        i = i + 1;
    }
    assert(files.take(i as int) =~= files);
    out
}


/// How a source file is judged: missing from the destination, it is a
/// difference; present and not newer (same time or older), it is none;
/// newer with the same content hash, none; newer with a different one, it
/// is a newer copy. A difference keeps the file's path and size and carries
/// its modification time.
pub proof fn law_comparison_cases(
    file: SourceFile,
    dest_mod: Option<i128>,
    hashes: (Option<u64>, Option<u64>),
)
    ensures
        dest_mod is None ==> (diff_of(file, dest_mod, hashes) matches Some(d) && d.reason is Missing),
        forall|dm: i128|
            dest_mod == Some(dm) && file.modified <= dm ==> #[trigger] diff_of(
                file,
                Some(dm),
                hashes,
            ) is None,
        dest_mod is Some && hashes.0 == hashes.1 ==> diff_of(file, dest_mod, hashes) is None,
        forall|dm: i128|
            dest_mod == Some(dm) && file.modified > dm && hashes.0 != hashes.1
                ==> #[trigger] diff_of(file, Some(dm), hashes) == Some(
                DiffModel {
                    rel_path: path_view(file.rel_path@),
                    size: file.size,
                    modified: Some(file.modified),
                    reason: DiffReason::Newer { source_mod: file.modified, dest_mod: dm },
                },
            ),
        diff_of(file, dest_mod, hashes) matches Some(d) ==> d.rel_path == path_view(file.rel_path@)
            && d.size == file.size && d.modified == Some(file.modified),
{
}

/// The differences of a comparison come from the source files in their
/// order: their number never exceeds the files', and each is the judgement
/// of some file that lies below no excluded directory.
pub proof fn law_compared_from_sources(
    files: Seq<SourceFile>,
    dest: Seq<DestFile>,
    hashes: Seq<(Option<u64>, Option<u64>)>,
    exclude: Seq<String>,
)
    ensures
        compared(files, dest, hashes, exclude).len() <= files.len(),
        forall|k: int| 0 <= k < compared(files, dest, hashes, exclude).len() ==> exists|i: int|
            0 <= i < files.len() && !in_excluded_dir(exclude, path_view(files[i].rel_path@)) && diff_of(
                files[i],
                dest_mod_of(dest, path_view(files[i].rel_path@)),
                hashes[i],
            ) == Some(#[trigger] compared(files, dest, hashes, exclude)[k]),
    decreases files.len(),
{
    if files.len() > 0 {
        let n = files.len() - 1;
        law_compared_from_sources(files.drop_last(), dest, hashes, exclude);
        let rest = compared(files.drop_last(), dest, hashes, exclude);
        assert forall|k: int| 0 <= k < compared(files, dest, hashes, exclude).len() implies exists|i: int|
            0 <= i < files.len() && !in_excluded_dir(exclude, path_view(files[i].rel_path@)) && diff_of(
                files[i],
                dest_mod_of(dest, path_view(files[i].rel_path@)),
                hashes[i],
            ) == Some(#[trigger] compared(files, dest, hashes, exclude)[k]) by {
            if k < rest.len() {
                let i = choose|i: int|
                    0 <= i < files.drop_last().len() && !in_excluded_dir(
                        exclude,
                        path_view(files.drop_last()[i].rel_path@),
                    ) && diff_of(
                        files.drop_last()[i],
                        dest_mod_of(dest, path_view(files.drop_last()[i].rel_path@)),
                        hashes[i],
                    ) == Some(#[trigger] rest[k]);
                assert(files[i] == files.drop_last()[i]);
            } else {
                assert(diff_of(files[n], dest_mod_of(dest, path_view(files[n].rel_path@)), hashes[n]) == Some(
                    compared(files, dest, hashes, exclude)[k],
                ));
            }
        }
    }
}

/// Nothing below an excluded directory is reported: no directory on the
/// path of any difference is excluded.
pub proof fn law_nothing_reported_below_excluded(
    files: Seq<SourceFile>,
    dest: Seq<DestFile>,
    hashes: Seq<(Option<u64>, Option<u64>)>,
    exclude: Seq<String>,
)
    ensures
        forall|k: int|
            0 <= k < compared(files, dest, hashes, exclude).len() ==> !in_excluded_dir(
                exclude,
                (#[trigger] compared(files, dest, hashes, exclude)[k]).rel_path,
            ),
        forall|k: int, j: int|
            0 <= k < compared(files, dest, hashes, exclude).len() && 0 <= j < (#[trigger] compared(
                files,
                dest,
                hashes,
                exclude,
            )[k]).rel_path.len() - 1 ==> !excluded_by(
                exclude,
                #[trigger] compared(files, dest, hashes, exclude)[k].rel_path[j],
            ),
{
    law_compared_from_sources(files, dest, hashes, exclude);
    assert forall|k: int|
        0 <= k < compared(files, dest, hashes, exclude).len() implies !in_excluded_dir(
            exclude,
            (#[trigger] compared(files, dest, hashes, exclude)[k]).rel_path,
        ) by {
        let i = choose|i: int|
            0 <= i < files.len() && !in_excluded_dir(exclude, path_view(files[i].rel_path@)) && diff_of(
                files[i],
                dest_mod_of(dest, path_view(files[i].rel_path@)),
                hashes[i],
            ) == Some(#[trigger] compared(files, dest, hashes, exclude)[k]);
    }
}


/// A file below no excluded directory is judged like any other, even where
/// its own name matches a pattern: the last file of the list is reported
/// exactly when `diff_of` gives a difference for it.
pub proof fn law_file_names_are_not_excluded(
    files: Seq<SourceFile>,
    dest: Seq<DestFile>,
    hashes: Seq<(Option<u64>, Option<u64>)>,
    exclude: Seq<String>,
)
    requires
        files.len() > 0,
        forall|j: int|
            0 <= j < files.last().rel_path@.len() - 1 ==> !excluded_by(
                exclude,
                #[trigger] files.last().rel_path@[j]@,
            ),
    ensures
        compared(files, dest, hashes, exclude) == match diff_of(
            files.last(),
            dest_mod_of(dest, path_view(files.last().rel_path@)),
            hashes[files.len() - 1],
        ) {
            Some(d) => compared(files.drop_last(), dest, hashes, exclude).push(d),
            None => compared(files.drop_last(), dest, hashes, exclude),
        },
{
    let p = path_view(files.last().rel_path@);
    assert forall|j: int| 0 <= j < p.len() - 1 implies !excluded_by(exclude, #[trigger] p[j]) by {
        assert(p[j] == files.last().rel_path@[j]@);
    }
}

/// Distinct source paths give distinct difference paths: no path is
/// reported twice when the source lists each file once.
pub proof fn law_compared_paths_distinct(
    files: Seq<SourceFile>,
    dest: Seq<DestFile>,
    hashes: Seq<(Option<u64>, Option<u64>)>,
    exclude: Seq<String>,
)
    requires
        forall|i: int, j: int|
            0 <= i < files.len() && 0 <= j < files.len() && i != j ==> path_view(#[trigger] files[i].rel_path@)
                != path_view(#[trigger] files[j].rel_path@),
    ensures
        forall|a: int, b: int|
            0 <= a < compared(files, dest, hashes, exclude).len() && 0 <= b < compared(
                files,
                dest,
                hashes,
                exclude,
            ).len() && a != b ==> (#[trigger] compared(files, dest, hashes, exclude)[a]).rel_path != (
            #[trigger] compared(files, dest, hashes, exclude)[b]).rel_path,
    decreases files.len(),
{
    if files.len() > 0 {
        let n = files.len() - 1;
        let prev = files.drop_last();
        assert forall|i: int, j: int|
            0 <= i < prev.len() && 0 <= j < prev.len() && i != j implies path_view(
                #[trigger] prev[i].rel_path@,
            ) != path_view(#[trigger] prev[j].rel_path@) by {
            assert(prev[i] == files[i] && prev[j] == files[j]);
        }
        law_compared_paths_distinct(prev, dest, hashes, exclude);
        law_compared_from_sources(prev, dest, hashes, exclude);
        let rest = compared(prev, dest, hashes, exclude);
        let all = compared(files, dest, hashes, exclude);
        assert forall|k: int| 0 <= k < rest.len() implies (#[trigger] rest[k]).rel_path != path_view(
            files[n].rel_path@,
        ) by {
            let i = choose|i: int|
                0 <= i < prev.len() && !in_excluded_dir(exclude, path_view(prev[i].rel_path@)) && diff_of(
                    prev[i],
                    dest_mod_of(dest, path_view(prev[i].rel_path@)),
                    hashes[i],
                ) == Some(#[trigger] rest[k]);
            assert(prev[i] == files[i]);
            assert(path_view(files[i].rel_path@) != path_view(files[n].rel_path@));
        }
        assert forall|a: int, b: int|
            0 <= a < all.len() && 0 <= b < all.len() && a != b implies (#[trigger] all[a]).rel_path != (
            #[trigger] all[b]).rel_path by {
            if all.len() > rest.len() {
                assert(all == rest.push(all[rest.len() as int]));
                if a < rest.len() && b < rest.len() {
                    assert(all[a] == rest[a] && all[b] == rest[b]);
                } else if a < rest.len() {
                    assert(all[a] == rest[a]);
                    assert(all[b].rel_path == path_view(files[n].rel_path@));
                } else {
                    assert(all[b] == rest[b]);
                    assert(all[a].rel_path == path_view(files[n].rel_path@));
                }
            } else {
                assert(all == rest);
            }
        }
    }
}

}
