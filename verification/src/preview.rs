//! Which files get a preview, and the text of a text preview.
use vstd::prelude::*;

use crate::numfmt::push_char;
use crate::text::chars_of;

verus! {

/// How many bytes of a file a text preview shows at most.
pub const TEXT_PREVIEW_BYTES: usize = 4096;

/// The index of the last `c` in `s`, or -1.
pub open spec fn last_index_of(s: Seq<char>, c: char) -> int
    decreases s.len(),
{
    if s.len() == 0 {
        -1
    } else if s.last() == c {
        s.len() - 1
    } else {
        last_index_of(s.drop_last(), c)
    }
}

pub proof fn lemma_last_index_of(s: Seq<char>, c: char)
    ensures
        -1 <= last_index_of(s, c) < s.len(),
        last_index_of(s, c) >= 0 ==> s[last_index_of(s, c)] == c,
        forall|k: int| last_index_of(s, c) < k < s.len() ==> s[k] != c,
    decreases s.len(),
{
    if s.len() > 0 && s.last() != c {
        lemma_last_index_of(s.drop_last(), c);
        assert forall|k: int| last_index_of(s, c) < k < s.len() implies s[k] != c by {
            if k < s.len() - 1 {
                assert(s[k] == s.drop_last()[k]);
            }
        }
    }
}

/// The final name of a `/`-separated path, as `Path::file_name` gives it:
/// the last component that is neither empty nor `.`, unless that is `..`;
/// none for a path without one.
pub open spec fn file_name(p: Seq<char>) -> Option<Seq<char>>
    decreases p.len(),
{
    let i = last_index_of(p, '/');
    let seg = p.subrange(i + 1, p.len() as int);
    if seg.len() == 0 || seg == seq!['.'] {
        if i < 0 {
            None
        } else {
            proof {
                lemma_last_index_of(p, '/');
            }
            file_name(p.subrange(0, i))
        }
    } else if seg == seq!['.', '.'] {
        None
    } else {
        Some(seg)
    }
}

/// The extension of a path, as `Path::extension` gives it: what follows the
/// last `.` of the file name, where that `.` is not its first character.
pub open spec fn extension(p: Seq<char>) -> Option<Seq<char>> {
    match file_name(p) {
        Some(n) => {
            let d = last_index_of(n, '.');
            if d <= 0 {
                None
            } else {
                Some(n.subrange(d + 1, n.len() as int))
            }
        },
        None => None,
    }
}

/// The lower-case form of `s`, as `str::to_lowercase` gives it.
pub uninterp spec fn lowercase_of(s: Seq<char>) -> Seq<char>;

/// `str::to_lowercase`.
#[verifier::external_body]
fn to_lowercase(s: &str) -> (r: String)
    ensures
        r@ == lowercase_of(s@),
{
    s.to_lowercase()
}

/// A lower-case extension of an image file that gets an image preview.
pub open spec fn is_image_ext(e: Seq<char>) -> bool {
    ||| e == seq!['j', 'p', 'g']
    ||| e == seq!['j', 'p', 'e', 'g']
    ||| e == seq!['p', 'n', 'g']
    ||| e == seq!['g', 'i', 'f']
    ||| e == seq!['b', 'm', 'p']
    ||| e == seq!['w', 'e', 'b', 'p']
    ||| e == seq!['t', 'i', 'f', 'f']
    ||| e == seq!['t', 'i', 'f']
    ||| e == seq!['i', 'c', 'o']
}

fn lit_eq(v: &Vec<char>, lit: &[char]) -> (r: bool)
    ensures
        r == (v@ == lit@),
{
    if v.len() != lit.len() {
        return false;
    }
    let mut i: usize = 0;
    while i < v.len()
        invariant
            i <= v@.len(),
            v@.len() == lit@.len(),
            forall|j: int| 0 <= j < i ==> v@[j] == lit@[j],
        decreases v@.len() - i,
    {
        if v[i] != lit[i] {
            return false;
        }
        i = i + 1;
    }
    assert(v@ =~= lit@);
    true
}

/// Whether a lower-case extension belongs to an image file.
pub fn is_image_extension(lowered: &str) -> (r: bool)
    ensures
        r == is_image_ext(lowered@),
{
    let v = chars_of(lowered);
    lit_eq(&v, &['j', 'p', 'g']) || lit_eq(&v, &['j', 'p', 'e', 'g']) || lit_eq(&v, &['p', 'n', 'g'])
        || lit_eq(&v, &['g', 'i', 'f']) || lit_eq(&v, &['b', 'm', 'p']) || lit_eq(&v, &['w', 'e', 'b', 'p'])
        || lit_eq(&v, &['t', 'i', 'f', 'f']) || lit_eq(&v, &['t', 'i', 'f']) || lit_eq(&v, &['i', 'c', 'o'])
}


/// A lower-case extension of a text file that gets a text preview.
pub open spec fn is_text_ext(e: Seq<char>) -> bool {
    ||| e == seq!['t', 'x', 't']
    ||| e == seq!['m', 'd']
    ||| e == seq!['r', 's']
    ||| e == seq!['p', 'y']
    ||| e == seq!['j', 's']
    ||| e == seq!['t', 's']
    ||| e == seq!['j', 's', 'o', 'n']
    ||| e == seq!['t', 'o', 'm', 'l']
    ||| e == seq!['y', 'a', 'm', 'l']
    ||| e == seq!['y', 'm', 'l']
    ||| e == seq!['x', 'm', 'l']
    ||| e == seq!['h', 't', 'm', 'l']
    ||| e == seq!['c', 's', 's']
    ||| e == seq!['c', 's', 'v']
    ||| e == seq!['l', 'o', 'g']
    ||| e == seq!['s', 'h']
    ||| e == seq!['b', 'a', 's', 'h']
    ||| e == seq!['c']
    ||| e == seq!['c', 'p', 'p']
    ||| e == seq!['h']
    ||| e == seq!['h', 'p', 'p']
    ||| e == seq!['j', 'a', 'v', 'a']
    ||| e == seq!['g', 'o']
    ||| e == seq!['r', 'b']
    ||| e == seq!['p', 'h', 'p']
    ||| e == seq!['s', 'q', 'l']
    ||| e == seq!['c', 'o', 'n', 'f']
    ||| e == seq!['c', 'f', 'g']
    ||| e == seq!['i', 'n', 'i']
}

/// Whether a lower-case extension belongs to a text file.
pub fn is_text_extension(lowered: &str) -> (r: bool)
    ensures
        r == is_text_ext(lowered@),
{
    let v = chars_of(lowered);
    if lit_eq(&v, &['t', 'x', 't']) {
        return true;
    }
    if lit_eq(&v, &['m', 'd']) {
        return true;
    }
    if lit_eq(&v, &['r', 's']) {
        return true;
    }
    if lit_eq(&v, &['p', 'y']) {
        return true;
    }
    if lit_eq(&v, &['j', 's']) {
        return true;
    }
    if lit_eq(&v, &['t', 's']) {
        return true;
    }
    if lit_eq(&v, &['j', 's', 'o', 'n']) {
        return true;
    }
    if lit_eq(&v, &['t', 'o', 'm', 'l']) {
        return true;
    }
    if lit_eq(&v, &['y', 'a', 'm', 'l']) {
        return true;
    }
    if lit_eq(&v, &['y', 'm', 'l']) {
        return true;
    }
    if lit_eq(&v, &['x', 'm', 'l']) {
        return true;
    }
    if lit_eq(&v, &['h', 't', 'm', 'l']) {
        return true;
    }
    if lit_eq(&v, &['c', 's', 's']) {
        return true;
    }
    if lit_eq(&v, &['c', 's', 'v']) {
        return true;
    }
    if lit_eq(&v, &['l', 'o', 'g']) {
        return true;
    }
    if lit_eq(&v, &['s', 'h']) {
        return true;
    }
    if lit_eq(&v, &['b', 'a', 's', 'h']) {
        return true;
    }
    if v.len() == 1 && v[0] == 'c' {
        assert(v@ =~= seq!['c']);
        return true;
    }
    if lit_eq(&v, &['c', 'p', 'p']) {
        return true;
    }
    if v.len() == 1 && v[0] == 'h' {
        assert(v@ =~= seq!['h']);
        return true;
    }
    if lit_eq(&v, &['h', 'p', 'p']) {
        return true;
    }
    if lit_eq(&v, &['j', 'a', 'v', 'a']) {
        return true;
    }
    if lit_eq(&v, &['g', 'o']) {
        return true;
    }
    if lit_eq(&v, &['r', 'b']) {
        return true;
    }
    if lit_eq(&v, &['p', 'h', 'p']) {
        return true;
    }
    if lit_eq(&v, &['s', 'q', 'l']) {
        return true;
    }
    if lit_eq(&v, &['c', 'o', 'n', 'f']) {
        return true;
    }
    if lit_eq(&v, &['c', 'f', 'g']) {
        return true;
    }
    if lit_eq(&v, &['i', 'n', 'i']) {
        return true;
    }
    assert(v@ != seq!['c']) by {
        if v@ == seq!['c'] {
            assert(v@.len() == 1 && v@[0] == 'c');
        }
    }
    assert(v@ != seq!['h']) by {
        if v@ == seq!['h'] {
            assert(v@.len() == 1 && v@[0] == 'h');
        }
    }
    false
}

/// The index of the last `c` among the first `end` characters of `p`.
fn last_index_before(p: &Vec<char>, end: usize, c: char) -> (r: Option<usize>)
    requires
        end <= p@.len(),
    ensures
        match r {
            Some(i) => last_index_of(p@.subrange(0, end as int), c) == i,
            None => last_index_of(p@.subrange(0, end as int), c) == -1,
        },
    decreases end,
{
    if end == 0 {
        return None;
    }
    assert(p@.subrange(0, end as int).drop_last() =~= p@.subrange(0, end - 1));
    if p[end - 1] == c {
        Some(end - 1)
    } else {
        last_index_before(p, end - 1, c)
    }
}

/// Where the file name of `p[..end]` stands in `p`, as a range.
fn file_name_range(p: &Vec<char>, end: usize) -> (r: Option<(usize, usize)>)
    requires
        end <= p@.len(),
    ensures
        match r {
            Some((a, b)) => a <= b <= end && file_name(p@.subrange(0, end as int)) == Some(
                p@.subrange(a as int, b as int),
            ),
            None => file_name(p@.subrange(0, end as int)) is None,
        },
    decreases end,
{
    let ghost q = p@.subrange(0, end as int);
    let slash = last_index_before(p, end, '/');
    proof {
        lemma_last_index_of(q, '/');
    }
    let start: usize = match slash {
        Some(i) => i + 1,
        None => 0,
    };
    let ghost seg = q.subrange(last_index_of(q, '/') + 1, q.len() as int);
    assert(seg =~= p@.subrange(start as int, end as int));
    let len = end - start;
    if len == 0 || (len == 1 && p[start] == '.') {
        if len == 1 {
            assert(seg =~= seq!['.']);
        }
        match slash {
            None => None,
            Some(i) => {
                assert(q.subrange(0, i as int) =~= p@.subrange(0, i as int));
                file_name_range(p, i)
            },
        }
    } else if len == 2 && p[start] == '.' && p[start + 1] == '.' {
        assert(seg =~= seq!['.', '.']);
        None
    } else {
        assert(seg != seq!['.']) by {
            if len == 1 {
                assert(seg[0] == p@[start as int]);
            }
        }
        assert(seg != seq!['.', '.']) by {
            if len == 2 {
                assert(seg[0] == p@[start as int]);
                assert(seg[1] == p@[start + 1]);
            }
        }
        Some((start, end))
    }
}

/// The extension of `path` (see `extension`), as a string.
fn extension_of(path: &str) -> (r: Option<String>)
    ensures
        match r {
            Some(e) => extension(path@) == Some(e@),
            None => extension(path@) is None,
        },
{
    let p = chars_of(path);
    assert(p@.subrange(0, p@.len() as int) =~= p@);
    match file_name_range(&p, p.len()) {
        None => None,
        Some((a, b)) => {
            let ghost n = p@.subrange(a as int, b as int);
            // the last '.' of the name
            let mut d: usize = b;
            while d > a && p[d - 1] != '.'
                invariant
                    a <= d <= b <= p@.len(),
                    n == p@.subrange(a as int, b as int),
                    forall|k: int| d <= k < b ==> p@[k] != '.',
                decreases d - a,
            {
                d = d - 1;
            }
            let found = d > a;
            proof {
                lemma_last_index_of(n, '.');
            }
            if !found || d - 1 == a {
                proof {
                    if !found {
                        assert forall|k: int| 0 <= k < n.len() implies n[k] != '.' by {
                            assert(n[k] == p@[a + k]);
                        }
                        if last_index_of(n, '.') >= 0 {
                            assert(n[last_index_of(n, '.')] == '.');
                        }
                    } else {
                        assert(n[0] == '.');
                        assert(last_index_of(n, '.') == 0) by {
                            assert forall|k: int| 0 < k < n.len() implies n[k] != '.' by {
                                assert(n[k] == p@[a + k]);
                            }
                            if last_index_of(n, '.') > 0 {
                                assert(n[last_index_of(n, '.')] == '.');
                            }
                        }
                    }
                }
                None
            } else {
                assert(last_index_of(n, '.') == d - 1 - a) by {
                    assert(n[d - 1 - a] == p@[d - 1]);
                    assert forall|k: int| d - a <= k < n.len() implies n[k] != '.' by {
                        assert(n[k] == p@[a + k]);
                    }
                    if last_index_of(n, '.') > d - 1 - a {
                        assert(n[last_index_of(n, '.')] == '.');
                    }
                    if last_index_of(n, '.') < d - 1 - a {
                        assert(n[d - 1 - a] != '.');
                    }
                }
                let mut e = String::new();
                let mut i: usize = d;
                while i < b
                    invariant
                        d <= i <= b <= p@.len(),
                        e@ == p@.subrange(d as int, i as int),
                    decreases b - i,
                {
                    push_char(&mut e, p[i]);
                    assert(e@ =~= p@.subrange(d as int, i + 1));
                    i = i + 1;
                }
                assert(e@ =~= n.subrange(d - a, n.len() as int));
                Some(e)
            }
        },
    }
}

/// A path of an image file: its extension, in lower case, is an image one.
pub open spec fn image_path(p: Seq<char>) -> bool {
    extension(p) matches Some(e) && is_image_ext(lowercase_of(e))
}

/// A path of a text file: its extension, in lower case, is a text one.
pub open spec fn text_path(p: Seq<char>) -> bool {
    extension(p) matches Some(e) && is_text_ext(lowercase_of(e))
}

/// Whether `path` names an image file: its extension, in lower case, is
/// one of jpg, jpeg, png, gif, bmp, webp, tiff, tif, ico.
pub fn is_image(path: &str) -> (r: bool)
    ensures
        r == image_path(path@),
{
    match extension_of(path) {
        Some(e) => {
            let lowered = to_lowercase(e.as_str());
            is_image_extension(lowered.as_str())
        },
        None => false,
    }
}

/// Whether `path` names a text file: its extension, in lower case, is one
/// of txt, md, rs, py, js, ts, json, toml, yaml, yml, xml, html, css, csv,
/// log, sh, bash, c, cpp, h, hpp, java, go, rb, php, sql, conf, cfg, ini.
pub fn is_text(path: &str) -> (r: bool)
    ensures
        r == text_path(path@),
{
    match extension_of(path) {
        Some(e) => {
            let lowered = to_lowercase(e.as_str());
            is_text_extension(lowered.as_str())
        },
        None => false,
    }
}

/// The kind of preview a file gets.
#[derive(Clone, Copy, Debug, PartialEq, Eq, Structural)]
pub enum PreviewKind {
    Image,
    Text,
    Unsupported,
}

/// The kind of preview of the file at `path`: an image preview for an image
/// file, else a text preview for a text file, else none.
pub fn preview_kind(path: &str) -> (k: PreviewKind)
    ensures
        k == (if image_path(path@) {
            PreviewKind::Image
        } else if text_path(path@) {
            PreviewKind::Text
        } else {
            PreviewKind::Unsupported
        }),
{
    if is_image(path) {
        PreviewKind::Image
    } else if is_text(path) {
        PreviewKind::Text
    } else {
        PreviewKind::Unsupported
    }
}

/// `String::from_utf8`: the text that `bytes` encode in UTF-8, where they
/// are valid UTF-8.
#[verifier::external_body]
fn string_from_utf8(bytes: Vec<u8>) -> (r: Option<String>)
    ensures
        r is Some <==> vstd::utf8::valid_utf8(bytes@),
        r matches Some(s) ==> s@ == vstd::utf8::decode_utf8(bytes@),
{
    String::from_utf8(bytes).ok()
}

/// The text preview of a file whose first read gave `n` bytes into `buf`:
/// those bytes as text where they are valid UTF-8, else none.
pub fn text_preview_from_read(buf: Vec<u8>, n: usize) -> (r: Option<String>)
    requires
        n <= buf@.len(),
    ensures
        r is Some <==> vstd::utf8::valid_utf8(buf@.take(n as int)),
        r matches Some(s) ==> s@ == vstd::utf8::decode_utf8(buf@.take(n as int)),
{
    let mut buf = buf;
    buf.truncate(n);
    string_from_utf8(buf)
}

}
