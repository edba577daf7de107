//! Decisions around AppImage files: whether a file may be run, where a
//! program is looked for on `PATH`, what mounting an AppImage reported, and
//! where an extracted icon is copied to.

use vstd::prelude::*;
use crate::path::{base_name, file_name_range, joined, join_path};
use crate::text::{chars_of, string_from, trim, trimmed};

verus! {

/// Whether a file with the permission bits `mode` may be run by someone.
pub open spec fn mode_allows_running(mode: u32) -> bool {
    mode & 0o111u32 != 0
}

/// Whether the file at `path` counts as executable: when it exists (`mode`
/// holds its permission bits), by its permission bits; when it does not,
/// because a bare command name (no `/`) was found as an executable file on
/// `PATH`.
pub open spec fn counts_as_executable(path: Seq<char>, mode: Option<u32>, found_on_path: bool) -> bool {
    match mode {
        Some(m) => mode_allows_running(m),
        None => !path.contains('/') && found_on_path,
    }
}

/// Whether the file at `path` counts as executable, given its permission
/// bits `mode` when it exists and whether the command was found on `PATH`.
pub fn is_executable(path: &str, mode: Option<u32>, found_on_path: bool) -> (r: bool)
    ensures
        r == counts_as_executable(path@, mode, found_on_path),
        mode matches Some(m) ==> (r <==> m & 0o111u32 != 0),
        mode is None ==> (r <==> (!path@.contains('/') && found_on_path)),
{
    match mode {
        Some(m) => m & 0o111u32 != 0,
        None => {
            let v = chars_of(path);
            let mut i: usize = 0;
            while i < v.len()
                invariant
                    i <= v@.len(),
                    v@ == path@,
                    mode is None,
                    forall|j: int| 0 <= j < i ==> v@[j] != '/',
                decreases v@.len() - i,
            {
                if v[i] == '/' {
                    assert(v@[i as int] == '/');
                    return false;
                }
                i += 1;
            }
            found_on_path
        },
    }
}

/// Index of the first `sep` in `s` at or after `from`, or the length.
pub open spec fn index_from(s: Seq<char>, from: int, sep: char) -> int
    decreases s.len() - from,
{
    if from < 0 || from >= s.len() {
        s.len() as int
    } else if s[from] == sep {
        from
    } else {
        index_from(s, from + 1, sep)
    }
}

/// Bounds of `index_from`.
pub proof fn lemma_index_from(s: Seq<char>, from: int, sep: char)
    requires
        0 <= from <= s.len(),
    ensures
        from <= index_from(s, from, sep) <= s.len(),
        index_from(s, from, sep) < s.len() ==> s[index_from(s, from, sep)] == sep,
    decreases s.len() - from,
{
    if from < s.len() && s[from] != sep {
        lemma_index_from(s, from + 1, sep);
    }
}

/// The pieces of `s[from..]` between occurrences of `sep`, as `str::split`
/// yields them: empty pieces included.
pub open spec fn pieces_from(s: Seq<char>, from: int, sep: char) -> Seq<Seq<char>>
    decreases s.len() + 1 - from,
{
    if from < 0 || from > s.len() {
        seq![]
    } else {
        let e = index_from(s, from, sep);
        if e < s.len() {
            proof {
                lemma_index_from(s, from, sep);
            }
            seq![s.subrange(from, e)] + pieces_from(s, e + 1, sep)
        } else {
            seq![s.subrange(from, s.len() as int)]
        }
    }
}

/// The directories that a `PATH` value lists, in order.
pub open spec fn path_dirs(path_var: Seq<char>) -> Seq<Seq<char>> {
    pieces_from(path_var, 0, ':')
}

/// Returns, in order, the files that the command `name` may be on the
/// search path `path_var`: `name` joined to each directory it lists.
pub fn path_candidates(path_var: &str, name: &str) -> (r: Vec<String>)
    ensures
        r@.len() == path_dirs(path_var@).len(),
        forall|i: int|
            0 <= i < r@.len() ==> #[trigger] r@[i]@ == joined(path_dirs(path_var@)[i], name@),
{
    let v = chars_of(path_var);
    let n = v.len();
    let mut r: Vec<String> = Vec::new();
    let mut from: usize = 0;
    let ghost mut done: Seq<Seq<char>> = seq![];
    assert(done + pieces_from(v@, 0, ':') =~= path_dirs(path_var@));
    loop
        invariant
            v@ == path_var@,
            n == v@.len(),
            from <= n,
            path_dirs(path_var@) == done + pieces_from(v@, from as int, ':'),
            r@.len() == done.len(),
            forall|i: int| 0 <= i < r@.len() ==> #[trigger] r@[i]@ == joined(done[i], name@),
        decreases n - from,
    {
        let mut e = from;
        while e < n && v[e] != ':'
            invariant
                from <= e <= n == v@.len(),
                index_from(v@, from as int, ':') == index_from(v@, e as int, ':'),
            decreases n - e,
        {
            e += 1;
        }
        let dir = string_from(&v, from, e);
        let candidate = join_path(dir.as_str(), name);
        let ghost piece = v@.subrange(from as int, e as int);
        let ghost rest = pieces_from(v@, e + 1, ':');
        r.push(candidate);
        proof {
            assert(done + (seq![piece] + rest) =~= done.push(piece) + rest);
            done = done.push(piece);
        }
        if e >= n {
            assert(pieces_from(v@, e + 1, ':') =~= Seq::<Seq<char>>::empty());
            assert(path_dirs(path_var@) =~= done);
            return r;
        }
        from = e + 1;
    }
}

/// The mount point that an AppImage printed on its first line of output:
/// the line without surrounding white space, when anything is left.
pub open spec fn reported_mount_point(line: Seq<char>) -> Option<Seq<char>> {
    if trimmed(line).len() > 0 {
        Some(trimmed(line))
    } else {
        None
    }
}

/// Reads the mount point from the first line that a mounting AppImage
/// printed; `None` when the line is blank.
pub fn mount_point_from_output(line: &str) -> (r: Option<String>)
    ensures
        r.deep_view() == reported_mount_point(line@),
{
    let t = trim(line);
    if t.as_str().unicode_len() > 0 {
        Some(t)
    } else {
        None
    }
}

/// Where the icon `src_file` is copied to in `dst_dir`: the directory joined
/// with the icon's file name; empty when there is no icon to copy.
pub open spec fn icon_copy_path(src_file: Seq<char>, dst_dir: Seq<char>) -> Seq<char> {
    if src_file.len() == 0 {
        seq![]
    } else {
        joined(dst_dir, base_name(src_file))
    }
}

/// Returns the path that the icon `src_file` is copied to in `dst_dir`, or
/// an empty string when `src_file` is empty (there is no icon).
pub fn icon_destination(src_file: &str, dst_dir: &str) -> (r: String)
    ensures
        r@ == icon_copy_path(src_file@, dst_dir@),
{
    let v = chars_of(src_file);
    if v.len() == 0 {
        return String::new();
    }
    let name = match file_name_range(&v) {
        Some((a, b)) => string_from(&v, a, b),
        None => String::new(),
    };
    join_path(dst_dir, name.as_str())
}

} // verus!
