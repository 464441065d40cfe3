//! The details pane of the selected file: its path and size, its creation
//! and modification times, and why it is listed.
use vstd::prelude::*;
use vstd::string::StringExecFns;

use chrono::{DateTime, Local};

use crate::numfmt::{format_size, push_char, size_text};
use crate::scanner::{DiffReason, FileDiff};

verus! {

/// The nanoseconds of one second.
pub open spec fn nanos_per_sec() -> int {
    1_000_000_000
}

/// The whole seconds of a time in nanoseconds since the Unix epoch, rounded
/// down (so that the nanoseconds past them are never negative).
pub open spec fn whole_secs(nanos: i128) -> int {
    nanos as int / nanos_per_sec()
}

/// A decimal digit.
pub open spec fn is_digit(c: char) -> bool {
    '0' <= c && c <= '9'
}

/// The form of a date and time written as `%Y-%m-%d %H:%M:%S`: a year of at
/// least four characters, then `-MM-DD HH:MM:SS` with two digits each.
pub open spec fn time_text_form(s: Seq<char>) -> bool {
    let n = s.len() as int;
    &&& n >= 19
    &&& s[n - 15] == '-' && is_digit(s[n - 14]) && is_digit(s[n - 13])
    &&& s[n - 12] == '-' && is_digit(s[n - 11]) && is_digit(s[n - 10])
    &&& s[n - 9] == ' ' && is_digit(s[n - 8]) && is_digit(s[n - 7])
    &&& s[n - 6] == ':' && is_digit(s[n - 5]) && is_digit(s[n - 4])
    &&& s[n - 3] == ':' && is_digit(s[n - 2]) && is_digit(s[n - 1])
}

/// `DateTime::from_timestamp` with `secs` and `nsecs`, in the local time
/// zone, written as `%Y-%m-%d %H:%M:%S`: where chrono represents the time,
/// the text has that form (chrono writes the year with at least four
/// characters and every other field with two digits). Which date it shows
/// depends on the time zone of the machine and is not stated, nor which
/// timestamps lie outside chrono's range (none is given for those).
#[verifier::external_body]
fn local_time_text(secs: i64, nsecs: u32) -> (r: Option<String>)
    requires
        nsecs < 1_000_000_000,
    ensures
        r matches Some(s) ==> time_text_form(s@),
{
    match DateTime::from_timestamp(secs, nsecs) {
        Some(t) => Some(t.with_timezone(&Local).format("%Y-%m-%d %H:%M:%S").to_string()),
        None => None,
    }
}

/// A time in nanoseconds since the Unix epoch as whole seconds (rounded
/// down) and the nanoseconds past them; none where the seconds do not fit
/// 64 bits.
pub fn split_nanos(nanos: i128) -> (r: Option<(i64, u32)>)
    ensures
        r is Some <==> i64::MIN <= whole_secs(nanos) <= i64::MAX,
        r matches Some((secs, ns)) ==> secs == whole_secs(nanos) && ns < 1_000_000_000 && nanos == secs
            * nanos_per_sec() + ns,
{
    let (secs, nsecs): (i128, u32) = if nanos >= 0 {
        let u = nanos as u128;
        assert(u == (u / 1_000_000_000) * 1_000_000_000 + u % 1_000_000_000) by (nonlinear_arith);
        ((u / 1_000_000_000) as i128, (u % 1_000_000_000) as u32)
    } else {
        // nanos == -(u + 1)
        let u = (-(nanos + 1)) as u128;
        assert(nanos as int / nanos_per_sec() == -((u / 1_000_000_000) as int) - 1) by (nonlinear_arith)
            requires
                nanos < 0,
                u == -(nanos + 1),
        ;
        assert(u == (u / 1_000_000_000) * 1_000_000_000 + u % 1_000_000_000) by (nonlinear_arith);
        (-((u / 1_000_000_000) as i128) - 1, (999_999_999 - u % 1_000_000_000) as u32)
    };
    assert(secs == whole_secs(nanos)) by (nonlinear_arith)
        requires
            nanos >= 0 ==> secs == nanos as int / 1_000_000_000,
            nanos < 0 ==> secs == nanos as int / nanos_per_sec(),
            nanos_per_sec() == 1_000_000_000,
    ;
    assert(nanos == secs * nanos_per_sec() + nsecs) by (nonlinear_arith)
        requires
            nanos >= 0 ==> (secs == nanos as int / 1_000_000_000 && nsecs == nanos as int % 1_000_000_000),
            nanos < 0 ==> (secs == -((-(nanos + 1)) / 1_000_000_000) - 1 && nsecs == 999_999_999 - (-(nanos
                + 1)) % 1_000_000_000),
            nanos_per_sec() == 1_000_000_000,
    ;
    if secs < i64::MIN as i128 || secs > i64::MAX as i128 {
        return None;
    }
    Some((secs as i64, nsecs))
}

/// A time in nanoseconds since the Unix epoch as the local date and time
/// shown to the user: the seconds and nanoseconds of `split_nanos` handed
/// to chrono. None where the seconds do not fit 64 bits (or chrono cannot
/// represent the time); otherwise the text has the form of a date and time.
pub fn shown_time(nanos: i128) -> (r: Option<String>)
    ensures
        !(i64::MIN <= whole_secs(nanos) <= i64::MAX) ==> r is None,
        r matches Some(s) ==> time_text_form(s@),
{
    match split_nanos(nanos) {
        Some((secs, ns)) => local_time_text(secs, ns),
        None => None,
    }
}

/// A relative path as shown: its components joined by `/`.
pub open spec fn path_text(p: Seq<Seq<char>>) -> Seq<char>
    decreases p.len(),
{
    if p.len() == 0 {
        Seq::empty()
    } else if p.len() == 1 {
        p[0]
    } else {
        path_text(p.drop_last()) + seq!['/'] + p.last()
    }
}

/// The text of an optional time: the time, or `N/A`.
pub open spec fn or_na(t: Option<String>) -> Seq<char> {
    match t {
        Some(s) => s@,
        None => "N/A"@,
    }
}

/// The first line of the details: the path and the size.
pub open spec fn file_line(path: Seq<Seq<char>>, size: u64) -> Seq<char> {
    "File: "@ + path_text(path) + "  ("@ + size_text(size as nat) + ")"@
}

/// The second line: the creation and modification times.
pub open spec fn times_line(created: Option<String>, modified: Option<String>) -> Seq<char> {
    "Created: "@ + or_na(created) + "  Modified: "@ + or_na(modified)
}

/// The status line of a file missing from the destination.
pub open spec fn new_status_line() -> Seq<char> {
    "Status: New file (not in destination)"@
}

/// The status line of a newer source copy, with the two times as shown.
pub open spec fn modified_status_line(source: Seq<char>, dest: Seq<char>) -> Seq<char> {
    "Status: Modified (source: "@ + source + ", dest: "@ + dest + ")"@
}

fn push_path(s: &mut String, p: &Vec<String>)
    ensures
        final(s)@ == old(s)@ + path_text(crate::text::path_view(p@)),
{
    let ghost pv = crate::text::path_view(p@);
    let mut i: usize = 0;
    assert(pv.take(0) =~= Seq::<Seq<char>>::empty());
    assert(s@ =~= old(s)@ + path_text(pv.take(0)));
    while i < p.len()
        invariant
            i <= p@.len(),
            pv == crate::text::path_view(p@),
            pv.len() == p@.len(),
            s@ == old(s)@ + path_text(pv.take(i as int)),
        decreases p@.len() - i,
    {
        let ghost before = s@;
        assert(pv.take(i + 1).drop_last() =~= pv.take(i as int));
        assert(pv.take(i + 1).last() == p@[i as int]@);
        if i > 0 {
            push_char(s, '/');
        } else {
            assert(pv.take(0) =~= Seq::<Seq<char>>::empty());
            assert(pv.take(1) =~= seq![pv[0]]);
        }
        s.append(p[i].as_str());
        proof {
            if i > 0 {
                assert(s@ =~= old(s)@ + path_text(pv.take(i + 1)));
            } else {
                assert(s@ =~= old(s)@ + path_text(pv.take(i + 1)));
            }
        }
        i = i + 1;
    }
    assert(pv.take(i as int) =~= pv);
}

fn time_or_na(t: Option<String>) -> (r: String)
    ensures
        r@ == or_na(t),
{
    match t {
        Some(s) => s,
        None => {
            let mut s = String::new();
            s.append("N/A");
            s
        },
    }
}

/// The three lines of the details pane for difference `d`, given its
/// creation and modification times as shown and, for a newer copy, the
/// source and destination modification times as shown (none where
/// unknown): the path and size, the two times (`N/A` where unknown), and
/// the status: a new file, or a modified one with the source time first and
/// the destination time second.
pub fn details_lines(
    d: &FileDiff,
    created: Option<String>,
    modified: Option<String>,
    source_time: Option<String>,
    dest_time: Option<String>,
) -> (lines: Vec<String>)
    ensures
        lines@.len() == 3,
        lines@[0]@ == file_line(d@.rel_path, d.size),
        lines@[1]@ == times_line(created, modified),
        d.reason is Missing ==> lines@[2]@ == new_status_line(),
        d.reason is Newer ==> lines@[2]@ == modified_status_line(or_na(source_time), or_na(dest_time)),
{
    let ghost c0 = created;
    let ghost s0 = source_time;
    let ghost d0 = dest_time;
    let ghost m0 = modified;
    let mut first = String::new();
    first.append("File: ");
    push_path(&mut first, &d.rel_path);
    first.append("  (");
    let size = format_size(d.size);
    first.append(size.as_str());
    first.append(")");
    assert(first@ =~= file_line(d@.rel_path, d.size));

    let mut second = String::new();
    second.append("Created: ");
    let c = time_or_na(created);
    second.append(c.as_str());
    second.append("  Modified: ");
    let m = time_or_na(modified);
    second.append(m.as_str());
    assert(second@ =~= times_line(c0, m0));

    let mut third = String::new();
    match &d.reason {
        DiffReason::Missing => {
            third.append("Status: New file (not in destination)");
        },
        DiffReason::Newer { .. } => {
            let st = time_or_na(source_time);
            let dt = time_or_na(dest_time);
            third.append("Status: Modified (source: ");
            third.append(st.as_str());
            third.append(", dest: ");
            third.append(dt.as_str());
            third.append(")");
            assert(third@ =~= modified_status_line(or_na(s0), or_na(d0)));
        },
    }
    let mut lines: Vec<String> = Vec::new();
    lines.push(first);
    lines.push(second);
    lines.push(third);
    lines
}

} // verus!
