//! Exclusion of directory entries by name: exact names and `*` / `?` patterns.
use vstd::prelude::*;

use crate::text::chars_of;

verus! {

/// `name` matches `pat`, where `*` stands for any run of characters (the
/// empty one too), `?` for exactly one character, and any other character
/// for itself.
pub open spec fn glob_matches(pat: Seq<char>, name: Seq<char>) -> bool
    decreases pat.len() + name.len(),
{
    if pat.len() == 0 {
        name.len() == 0
    } else if pat[0] == '*' {
        glob_matches(pat.drop_first(), name) || (name.len() > 0 && glob_matches(
            pat,
            name.drop_first(),
        ))
    } else if name.len() == 0 {
        false
    } else if pat[0] == '?' || pat[0] == name[0] {
        glob_matches(pat.drop_first(), name.drop_first())
    } else {
        false
    }
}

/// `pat` holds a wildcard character.
pub open spec fn has_wildcard(pat: Seq<char>) -> bool {
    pat.contains('*') || pat.contains('?')
}

/// Pattern `pat` excludes an entry named `name`: by glob matching where it
/// holds a wildcard, else by being that exact name.
pub open spec fn pattern_excludes(pat: Seq<char>, name: Seq<char>) -> bool {
    if has_wildcard(pat) {
        glob_matches(pat, name)
    } else {
        name == pat
    }
}

/// Some pattern of `patterns` excludes `name`.
pub open spec fn excluded_by(patterns: Seq<String>, name: Seq<char>) -> bool {
    exists|i: int| 0 <= i < patterns.len() && pattern_excludes(#[trigger] patterns[i]@, name)
}

fn glob_match_recursive(pat: &Vec<char>, pi: usize, name: &Vec<char>, ni: usize) -> (r: bool)
    requires
        pi <= pat@.len(),
        ni <= name@.len(),
    ensures
        r == glob_matches(pat@.skip(pi as int), name@.skip(ni as int)),
    decreases pat@.len() - pi + name@.len() - ni,
{
    let ghost p = pat@.skip(pi as int);
    let ghost n = name@.skip(ni as int);
    if pi == pat.len() {
        return ni == name.len();
    }
    assert(p[0] == pat@[pi as int]);
    assert(p.drop_first() =~= pat@.skip(pi + 1));
    if pat[pi] == '*' {
        if glob_match_recursive(pat, pi + 1, name, ni) {
            return true;
        }
        if ni < name.len() {
            assert(n.drop_first() =~= name@.skip(ni + 1));
            return glob_match_recursive(pat, pi, name, ni + 1);
        }
        return false;
    }
    if ni == name.len() {
        return false;
    }
    assert(n[0] == name@[ni as int]);
    assert(n.drop_first() =~= name@.skip(ni + 1));
    if pat[pi] == '?' || pat[pi] == name[ni] {
        glob_match_recursive(pat, pi + 1, name, ni + 1)
    } else {
        false
    }
}

/// Whether `name` matches the glob `pattern`.
pub fn glob_match(pattern: &str, name: &str) -> (r: bool)
    ensures
        r == glob_matches(pattern@, name@),
{
    let pat = chars_of(pattern);
    let nm = chars_of(name);
    assert(pat@.skip(0) =~= pat@);
    assert(nm@.skip(0) =~= nm@);
    glob_match_recursive(&pat, 0, &nm, 0)
}

fn has_char(s: &str, c: char) -> (r: bool)
    ensures
        r == s@.contains(c),
{
    let v = chars_of(s);
    let mut i: usize = 0;
    while i < v.len()
        invariant
            i <= v@.len(),
            v@ == s@,
            forall|j: int| 0 <= j < i ==> v@[j] != c,
        decreases v@.len() - i,
    {
        if v[i] == c {
            return true;
        }
        i = i + 1;
    }
    false
}

/// Whether an entry named `name` is left out of the scan: some pattern
/// excludes it (see `pattern_excludes`).
pub fn should_exclude(name: &str, patterns: &[String]) -> (r: bool)
    ensures
        r == excluded_by(patterns@, name@),
{
    let mut i: usize = 0;
    while i < patterns.len()
        invariant
            i <= patterns@.len(),
            forall|j: int| 0 <= j < i ==> !pattern_excludes(#[trigger] patterns@[j]@, name@),
        decreases patterns@.len() - i,
    {
        let pat = patterns[i].as_str();
        let hit = if has_char(pat, '*') || has_char(pat, '?') {
            glob_match(pat, name)
        } else {
            let n = name.to_owned();
            n == patterns[i]
        };
        if hit {
            assert(pattern_excludes(patterns@[i as int]@, name@));
            return true;
        }
        i = i + 1;
    }
    false
}

/// Some directory on the way to the file at path `p` (a component other
/// than the last) is excluded by `patterns`: the file lies below an excluded
/// directory.
pub open spec fn in_excluded_dir(patterns: Seq<String>, p: Seq<Seq<char>>) -> bool {
    exists|k: int| 0 <= k < p.len() - 1 && excluded_by(patterns, #[trigger] p[k])
}

/// A file lies below an excluded directory exactly when some component
/// before its own name, at any depth, is excluded; its own name does not
/// count.
pub proof fn law_excluded_dir_at_any_depth(patterns: Seq<String>, p: Seq<Seq<char>>)
    ensures
        forall|k: int| 0 <= k < p.len() - 1 && excluded_by(patterns, #[trigger] p[k]) ==> in_excluded_dir(patterns, p),
        in_excluded_dir(patterns, p) ==> exists|k: int| 0 <= k < p.len() - 1 && excluded_by(patterns, #[trigger] p[k]),
        p.len() > 0 ==> in_excluded_dir(patterns, p) == in_excluded_dir(patterns, p.drop_last().push(seq![])),
{
    if p.len() > 0 {
        let q = p.drop_last().push(seq![]);
        assert forall|k: int| 0 <= k < p.len() - 1 implies q[k] == p[k] by {}
    }
}

/// Whether the file at relative path `rel_path` lies below a directory that
/// `patterns` exclude.
pub fn is_in_excluded_dir(rel_path: &Vec<String>, patterns: &[String]) -> (r: bool)
    ensures
        r == in_excluded_dir(patterns@, crate::text::path_view(rel_path@)),
{
    let ghost p = crate::text::path_view(rel_path@);
    if rel_path.len() == 0 {
        return false;
    }
    let dirs = rel_path.len() - 1;
    let mut i: usize = 0;
    while i < dirs
        invariant
            i <= dirs,
            dirs == rel_path@.len() - 1,
            p == crate::text::path_view(rel_path@),
            p.len() == rel_path@.len(),
            forall|k: int| 0 <= k < i ==> !excluded_by(patterns@, #[trigger] p[k]),
        decreases dirs - i,
    {
        assert(p[i as int] == rel_path@[i as int]@);
        if should_exclude(rel_path[i].as_str(), patterns) {
            return true;
        }
        i = i + 1;
    }
    false
}

/// Without wildcards a pattern matches exactly the name it spells.
pub proof fn lemma_glob_literal(pat: Seq<char>, name: Seq<char>)
    requires
        !has_wildcard(pat),
    ensures
        glob_matches(pat, name) == (pat == name),
    decreases pat.len(),
{
    if pat.len() > 0 {
        assert(pat[0] != '*' && pat[0] != '?') by {
            assert(pat.contains(pat[0]));
        }
        assert(!has_wildcard(pat.drop_first())) by {
            if pat.drop_first().contains('*') {
                let k = choose|k: int| 0 <= k < pat.drop_first().len() && pat.drop_first()[k] == '*';
                assert(pat[k + 1] == '*');
            }
            if pat.drop_first().contains('?') {
                let k = choose|k: int| 0 <= k < pat.drop_first().len() && pat.drop_first()[k] == '?';
                assert(pat[k + 1] == '?');
            }
        }
        if name.len() > 0 {
            lemma_glob_literal(pat.drop_first(), name.drop_first());
            if pat == name {
                assert(pat.drop_first() == name.drop_first());
            }
            if pat[0] == name[0] && pat.drop_first() == name.drop_first() {
                assert(pat =~= seq![pat[0]] + pat.drop_first());
                assert(name =~= seq![name[0]] + name.drop_first());
            }
        }
    } else {
        if name.len() == 0 {
            assert(pat =~= name);
        }
    }
}

/// A lone `*` matches every name.
pub proof fn lemma_star_matches_all(name: Seq<char>)
    ensures
        glob_matches(seq!['*'], name),
    decreases name.len(),
{
    let star = seq!['*'];
    assert(star[0] == '*');
    assert(star.drop_first() =~= Seq::<char>::empty());
    if name.len() > 0 {
        lemma_star_matches_all(name.drop_first());
    } else {
        assert(glob_matches(star.drop_first(), name));
    }
}

/// Exclusion by a pattern is glob matching, whether or not the pattern
/// holds a wildcard: the exact-name shortcut changes no outcome.
pub proof fn lemma_exclusion_is_glob_matching(pat: Seq<char>, name: Seq<char>)
    ensures
        pattern_excludes(pat, name) == glob_matches(pat, name),
{
    if !has_wildcard(pat) {
        lemma_glob_literal(pat, name);
    }
}

}
