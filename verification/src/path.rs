//! Unix paths as text: the final component of a path, joining a file name
//! to a directory, and the directory a path lies in.

use vstd::prelude::*;
use crate::text::{chars_of, has_prefix, push_all, push_char, string_from};

verus! {

/// Start of the path segment that ends at `end`: just after the last `/`
/// before `end`, or 0.
pub open spec fn segment_start(s: Seq<char>, end: int) -> int
    decreases end,
{
    if end <= 0 {
        0
    } else if s[end - 1] == '/' {
        end
    } else {
        segment_start(s, end - 1)
    }
}

/// Bounds of `segment_start`.
pub proof fn lemma_segment_start(s: Seq<char>, end: int)
    requires
        0 <= end <= s.len(),
    ensures
        0 <= segment_start(s, end) <= end,
        segment_start(s, end) > 0 ==> s[segment_start(s, end) - 1] == '/',
        forall|j: int| segment_start(s, end) <= j < end ==> s[j] != '/',
    decreases end,
{
    if end > 0 && s[end - 1] != '/' {
        lemma_segment_start(s, end - 1);
    }
}

/// The last component of `s[0..end]`: its last segment between slashes that
/// is neither empty nor `.`; `None` when there is none.
pub open spec fn last_component(s: Seq<char>, end: int) -> Option<Seq<char>>
    decreases end,
{
    if end <= 0 || end > s.len() {
        None
    } else {
        let st = segment_start(s, end);
        proof {
            lemma_segment_start(s, end);
        }
        if st == end {
            last_component(s, end - 1)
        } else if s.subrange(st, end) == seq!['.'] {
            last_component(s, st)
        } else {
            Some(s.subrange(st, end))
        }
    }
}

/// The file name of a path, as `Path::file_name` gives it: the last
/// component, unless that is `..`; trailing slashes and `.` components are
/// skipped.
pub open spec fn file_name(s: Seq<char>) -> Option<Seq<char>> {
    match last_component(s, s.len() as int) {
        Some(c) => if c == seq!['.', '.'] {
            None
        } else {
            Some(c)
        },
        None => None,
    }
}

/// The file name of a path, or the empty text when it has none.
pub open spec fn base_name(s: Seq<char>) -> Seq<char> {
    match file_name(s) {
        Some(n) => n,
        None => seq![],
    }
}

/// A file name never holds a slash, and is never empty, `.` or `..`.
pub proof fn lemma_file_name_shape(s: Seq<char>)
    ensures
        file_name(s) matches Some(n) ==> {
            &&& n.len() > 0
            &&& !n.contains('/')
            &&& n != seq!['.']
            &&& n != seq!['.', '.']
        },
{
    lemma_last_component_shape(s, s.len() as int);
}

proof fn lemma_last_component_shape(s: Seq<char>, end: int)
    ensures
        last_component(s, end) matches Some(n) ==> {
            &&& n.len() > 0
            &&& !n.contains('/')
            &&& n != seq!['.']
        },
    decreases end,
{
    if 0 < end <= s.len() {
        let st = segment_start(s, end);
        lemma_segment_start(s, end);
        if st == end {
            lemma_last_component_shape(s, end - 1);
        } else if s.subrange(st, end) == seq!['.'] {
            lemma_last_component_shape(s, st);
        } else {
            let n = s.subrange(st, end);
            assert forall|k: int| 0 <= k < n.len() implies n[k] != '/' by {
                assert(n[k] == s[st + k]);
            }
        }
    }
}

/// When a segment is `.` or `..`.
proof fn lemma_dot_segments(s: Seq<char>, a: int, b: int)
    requires
        0 <= a <= b <= s.len(),
    ensures
        (s.subrange(a, b) == seq!['.']) <==> (b - a == 1 && s[a] == '.'),
        (s.subrange(a, b) == seq!['.', '.']) <==> (b - a == 2 && s[a] == '.' && s[a + 1] == '.'),
{
    let t = s.subrange(a, b);
    let d: Seq<char> = seq!['.'];
    let dd: Seq<char> = seq!['.', '.'];
    if b - a == 1 && s[a] == '.' {
        assert(t =~= d);
    }
    if t == d {
        assert(d.len() == 1);
        assert(d[0] == '.');
        assert(t.len() == 1);
        assert(t[0] == s[a]);
    }
    if b - a == 2 && s[a] == '.' && s[a + 1] == '.' {
        assert(t =~= dd);
    }
    if t == dd {
        assert(dd.len() == 2);
        assert(dd[0] == '.');
        assert(dd[1] == '.');
        assert(t.len() == 2);
        assert(t[0] == s[a]);
        assert(t[1] == s[a + 1]);
    }
}

/// The bounds of the file name of `v` within `v`, if it has one.
pub fn file_name_range(v: &Vec<char>) -> (r: Option<(usize, usize)>)
    ensures
        match r {
            Some((a, b)) => a <= b <= v@.len() && file_name(v@) == Some(v@.subrange(a as int, b as int)),
            None => file_name(v@) is None,
        },
{
    let n = v.len();
    let mut end = n;
    loop
        invariant
            end <= n == v@.len(),
            last_component(v@, n as int) == last_component(v@, end as int),
        decreases end,
    {
        if end == 0 {
            return None;
        }
        let mut st = end;
        while st > 0 && v[st - 1] != '/'
            invariant
                st <= end <= n == v@.len(),
                0 < end,
                segment_start(v@, end as int) == segment_start(v@, st as int),
            decreases st,
        {
            st -= 1;
        }
        proof {
            lemma_segment_start(v@, end as int);
        }
        proof {
            lemma_dot_segments(v@, st as int, end as int);
        }
        if st == end {
            end -= 1;
        } else if end - st == 1 && v[st] == '.' {
            end = st;
        } else {
            if end - st == 2 && v[st] == '.' && v[st + 1] == '.' {
                return None;
            }
            return Some((st, end));
        }
    }
}

/// Returns the file name of `path`, or an empty string when the path has
/// none (it is empty, a root, or ends in `..`).
pub fn app_base_name(path: &str) -> (r: String)
    ensures
        r@ == base_name(path@),
{
    let v = chars_of(path);
    match file_name_range(&v) {
        Some((a, b)) => string_from(&v, a, b),
        None => String::new(),
    }
}

/// `dir` joined with `name` as `Path::join` does on Unix: an absolute `name`
/// replaces `dir`; otherwise a `/` is put between them unless `dir` is empty
/// or already ends with one.
pub open spec fn joined(dir: Seq<char>, name: Seq<char>) -> Seq<char> {
    if name.len() > 0 && name[0] == '/' {
        name
    } else if dir.len() > 0 && dir.last() != '/' {
        dir + seq!['/'] + name
    } else {
        dir + name
    }
}

/// Joins `name` to the directory `dir`.
pub fn join_path(dir: &str, name: &str) -> (r: String)
    ensures
        r@ == joined(dir@, name@),
{
    let d = chars_of(dir);
    let m = chars_of(name);
    if m.len() > 0 && m[0] == '/' {
        return string_from(&m, 0, m.len());
    }
    let mut r = String::new();
    push_all(&mut r, &d);
    if d.len() > 0 && d[d.len() - 1] != '/' {
        push_char(&mut r, '/');
    }
    push_all(&mut r, &m);
    r
}

/// Index of the last `.` in `f[0..end]`, or -1.
pub open spec fn last_dot_before(f: Seq<char>, end: int) -> int
    decreases end,
{
    if end <= 0 || end > f.len() {
        -1
    } else if f[end - 1] == '.' {
        end - 1
    } else {
        last_dot_before(f, end - 1)
    }
}

/// The extension of a path, as `Path::extension` gives it: the part of the
/// file name after its last `.`, unless the only `.` starts the name.
pub open spec fn extension(s: Seq<char>) -> Option<Seq<char>> {
    match file_name(s) {
        Some(f) => {
            let k = last_dot_before(f, f.len() as int);
            if k > 0 {
                Some(f.skip(k + 1))
            } else {
                None
            }
        },
        None => None,
    }
}

/// `desktop`
pub open spec fn desktop_extension() -> Seq<char> {
    seq!['d', 'e', 's', 'k', 't', 'o', 'p']
}

/// Whether `path` names a desktop entry file: its extension is `desktop`.
pub fn is_desktop_file(path: &str) -> (r: bool)
    ensures
        r == (extension(path@) == Some(desktop_extension())),
{
    let v = chars_of(path);
    let (a, b) = match file_name_range(&v) {
        Some(range) => range,
        None => {
            return false;
        },
    };
    let ghost f = v@.subrange(a as int, b as int);
    let mut k = b;
    while k > a && v[k - 1] != '.'
        invariant
            a <= k <= b <= v@.len(),
            f == v@.subrange(a as int, b as int),
            last_dot_before(f, f.len() as int) == last_dot_before(f, k - a),
        decreases k,
    {
        assert(f[k - a - 1] == v@[k - 1]);
        k -= 1;
    }
    if k == a {
        assert(last_dot_before(f, 0) == -1);
        return false;
    }
    assert(f[k - a - 1] == v@[k - 1]);
    if k - 1 == a {
        return false;
    }
    let ext: Vec<char> = vec!['d', 'e', 's', 'k', 't', 'o', 'p'];
    assert(ext@ =~= desktop_extension());
    let r = b - k == 7 && has_prefix(&v, k, b, &ext);
    assert(f.skip(k - a) =~= v@.subrange(k as int, b as int));
    assert(r == (v@.subrange(k as int, b as int) == desktop_extension())) by {
        if b - k == 7 {
            assert(v@.subrange(k as int, b as int).subrange(0, 7) =~= v@.subrange(k as int, b as int));
        }
    }
    r
}

/// Where the components of a path begin: after a leading `/`, or after a
/// leading `.` that stands alone or before a `/`.
pub open spec fn body_start(s: Seq<char>) -> int {
    if s.len() > 0 && s[0] == '/' {
        1
    } else if s.len() > 0 && s[0] == '.' && (s.len() == 1 || s[1] == '/') {
        1
    } else {
        0
    }
}

/// The end of what remains of `s[0..end]` once its last segment and the `/`
/// before it are taken off, not going below `b`.
pub open spec fn before_segment(s: Seq<char>, b: int, end: int) -> int {
    let st = segment_start(s, end);
    if st - 1 >= b {
        st - 1
    } else {
        b
    }
}

/// The last segment of `s[b..end]`.
pub open spec fn segment_from(s: Seq<char>, b: int, end: int) -> Seq<char> {
    let st = segment_start(s, end);
    s.subrange(if st >= b {
        st
    } else {
        b
    }, end)
}

/// The end of `s[0..end]` once trailing empty and `.` segments after `b` are
/// taken off.
pub open spec fn skip_empty_back(s: Seq<char>, b: int, end: int) -> int
    decreases end,
{
    if end <= b || end > s.len() || b < 0 {
        end
    } else {
        let seg = segment_from(s, b, end);
        proof {
            lemma_segment_start(s, end);
        }
        if seg.len() == 0 || seg == seq!['.'] {
            skip_empty_back(s, b, before_segment(s, b, end))
        } else {
            end
        }
    }
}

/// The directory part of a path, as `Path::parent` gives it on Unix: the
/// path without its last component and without the empty and `.` segments
/// that end what is left; `None` for the empty path and for a root. A path
/// that is just `.` (or `./`) has the empty path as its parent.
pub open spec fn parent_path(s: Seq<char>) -> Option<Seq<char>> {
    let b = body_start(s);
    let e = skip_empty_back(s, b, s.len() as int);
    if e <= b {
        if b == 1 && s[0] == '.' {
            Some(seq![])
        } else {
            None
        }
    } else {
        Some(s.subrange(0, skip_empty_back(s, b, before_segment(s, b, e))))
    }
}

/// Bounds of `skip_empty_back`.
pub proof fn lemma_skip_empty_back(s: Seq<char>, b: int, end: int)
    requires
        0 <= b <= end <= s.len(),
    ensures
        b <= skip_empty_back(s, b, end) <= end,
    decreases end,
{
    if end > b {
        lemma_segment_start(s, end);
        let seg = segment_from(s, b, end);
        if seg.len() == 0 || seg == seq!['.'] {
            lemma_skip_empty_back(s, b, before_segment(s, b, end));
        }
    }
}

/// `before_segment` and `segment_from` for `v[..end]`.
fn last_segment(v: &Vec<char>, b: usize, end: usize) -> (r: (usize, usize))
    requires
        b < end <= v@.len(),
    ensures
        r.0 == before_segment(v@, b as int, end as int),
        b <= r.0 < end,
        b <= r.1 <= end,
        v@.subrange(r.1 as int, end as int) == segment_from(v@, b as int, end as int),
{
    let mut st = end;
    while st > 0 && v[st - 1] != '/'
        invariant
            st <= end <= v@.len(),
            segment_start(v@, end as int) == segment_start(v@, st as int),
        decreases st,
    {
        st -= 1;
    }
    proof {
        lemma_segment_start(v@, end as int);
    }
    let seg_begin = if st >= b { st } else { b };
    let before = if st >= 1 && st - 1 >= b { st - 1 } else { b };
    (before, seg_begin)
}

/// The end of `v[0..end]` once trailing empty and `.` segments after `b`
/// are taken off.
fn skip_empty_segments(v: &Vec<char>, b: usize, end: usize) -> (r: usize)
    requires
        b <= end <= v@.len(),
    ensures
        r == skip_empty_back(v@, b as int, end as int),
        b <= r <= end,
{
    let mut e = end;
    while e > b
        invariant
            b <= e <= end <= v@.len(),
            skip_empty_back(v@, b as int, end as int) == skip_empty_back(v@, b as int, e as int),
        decreases e,
    {
        let (before, seg_begin) = last_segment(v, b, e);
        let len = e - seg_begin;
        proof {
            lemma_segment_start(v@, e as int);
            lemma_dot_segments(v@, seg_begin as int, e as int);
        }
        if len == 0 || (len == 1 && v[seg_begin] == '.') {
            e = before;
        } else {
            return e;
        }
    }
    e
}

/// Returns the directory part of `path`, as `Path::parent` does.
pub fn parent_of(path: &str) -> (r: Option<String>)
    ensures
        r.deep_view() == parent_path(path@),
{
    let v = chars_of(path);
    let n = v.len();
    let b: usize = if n > 0 && v[0] == '/' {
        1
    } else if n > 0 && v[0] == '.' && (n == 1 || v[1] == '/') {
        1
    } else {
        0
    };
    let e = skip_empty_segments(&v, b, n);
    if e <= b {
        if b == 1 && v[0] == '.' {
            return Some(String::new());
        }
        return None;
    }
    let (before, _) = last_segment(&v, b, e);
    let end = skip_empty_segments(&v, b, before);
    Some(string_from(&v, 0, end))
}

} // verus!
