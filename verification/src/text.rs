//! Character-level helpers shared by the desktop-file and path logic, and
//! the model of how a text splits into lines.

use vstd::prelude::*;

verus! {

broadcast use vstd::string::group_string_axioms;

/// The characters of `s`, in order.
pub fn chars_of(s: &str) -> (v: Vec<char>)
    ensures
        v@ == s@,
{
    let mut v: Vec<char> = Vec::new();
    for c in it: s.chars()
        invariant
            v@ == it.seq().take(it.index() as int),
            it.seq() == s@,
    {
        v.push(c);
    }
    v
}

/// `String::push`: appends the character `c` to `s`.
#[verifier::external_body]
pub(crate) fn push_char(s: &mut String, c: char)
    ensures
        final(s)@ == old(s)@.push(c),
{
    s.push(c);
}

/// Appends `v[from..to]` to `s`.
pub fn push_range(s: &mut String, v: &Vec<char>, from: usize, to: usize)
    requires
        from <= to <= v@.len(),
    ensures
        final(s)@ == old(s)@ + v@.subrange(from as int, to as int),
{
    let mut i = from;
    while i < to
        invariant
            from <= i <= to <= v@.len(),
            s@ == old(s)@ + v@.subrange(from as int, i as int),
        decreases to - i,
    {
        push_char(s, v[i]);
        i += 1;
        assert(v@.subrange(from as int, i as int) =~= v@.subrange(from as int, i - 1).push(
            v@[i - 1],
        ));
    }
}

/// Appends all of `v` to `s`.
pub fn push_all(s: &mut String, v: &Vec<char>)
    ensures
        final(s)@ == old(s)@ + v@,
{
    push_range(s, v, 0, v.len());
    assert(v@.subrange(0, v@.len() as int) =~= v@);
}

/// The characters `v[from..to]` as a `String`.
pub fn string_from(v: &Vec<char>, from: usize, to: usize) -> (r: String)
    requires
        from <= to <= v@.len(),
    ensures
        r@ == v@.subrange(from as int, to as int),
{
    let mut r = String::new();
    push_range(&mut r, v, from, to);
    r
}

/// Whether `p` is a prefix of `v[from..to]`.
pub fn has_prefix(v: &Vec<char>, from: usize, to: usize, p: &Vec<char>) -> (r: bool)
    requires
        from <= to <= v@.len(),
    ensures
        r == p@.is_prefix_of(v@.subrange(from as int, to as int)),
{
    if p.len() > to - from {
        return false;
    }
    let mut i: usize = 0;
    while i < p.len()
        invariant
            from <= to <= v@.len(),
            p@.len() <= to - from,
            0 <= i <= p@.len(),
            forall|j: int| 0 <= j < i ==> p@[j] == v@[from + j],
        decreases p@.len() - i,
    {
        if p[i] != v[from + i] {
            assert(p@[i as int] != v@.subrange(from as int, to as int).subrange(0, p@.len() as int)[i as int]);
            return false;
        }
        i += 1;
    }
    assert(p@ =~= v@.subrange(from as int, to as int).subrange(0, p@.len() as int));
    true
}

/// Whether the two character sequences are equal.
pub fn chars_equal(a: &Vec<char>, b: &Vec<char>) -> (r: bool)
    ensures
        r == (a@ == b@),
{
    if a.len() != b.len() {
        return false;
    }
    let r = has_prefix(b, 0, b.len(), a);
    assert(b@.subrange(0, b@.len() as int) =~= b@);
    r
}

/// `l` without one trailing carriage return.
pub open spec fn strip_cr(l: Seq<char>) -> Seq<char> {
    if l.len() > 0 && l.last() == '\r' {
        l.drop_last()
    } else {
        l
    }
}

/// Index of the first newline of `s` at or after `from`, or the length of
/// `s` when there is none.
pub open spec fn next_newline(s: Seq<char>, from: int) -> int
    decreases s.len() - from,
{
    if from < 0 || from >= s.len() {
        s.len() as int
    } else if s[from] == '\n' {
        from
    } else {
        next_newline(s, from + 1)
    }
}

/// Bounds of `next_newline`.
pub proof fn lemma_next_newline(s: Seq<char>, from: int)
    requires
        0 <= from <= s.len(),
    ensures
        from <= next_newline(s, from) <= s.len(),
        next_newline(s, from) < s.len() ==> s[next_newline(s, from)] == '\n',
        forall|j: int| from <= j < next_newline(s, from) ==> s[j] != '\n',
    decreases s.len() - from,
{
    if from < s.len() && s[from] != '\n' {
        lemma_next_newline(s, from + 1);
    }
}

/// The lines of `s` from index `from` on, as `str::lines` yields them: the
/// text is split at each `\n`, a `\r` right before a `\n` is dropped, and a
/// final line ending adds no empty line.
pub open spec fn lines_from(s: Seq<char>, from: int) -> Seq<Seq<char>>
    decreases s.len() - from,
{
    if from < 0 || from >= s.len() {
        seq![]
    } else {
        let e = next_newline(s, from);
        if e < s.len() {
            proof {
                lemma_next_newline(s, from);
            }
            seq![strip_cr(s.subrange(from, e))] + lines_from(s, e + 1)
        } else {
            seq![s.subrange(from, e)]
        }
    }
}

/// The lines of `s`.
pub open spec fn lines(s: Seq<char>) -> Seq<Seq<char>> {
    lines_from(s, 0)
}

/// Finds the line that starts at `from`: returns the index of its newline
/// (or the length) and the end of its text.
pub fn scan_line(v: &Vec<char>, from: usize) -> (r: (usize, usize))
    requires
        from < v@.len(),
    ensures
        r.0 == next_newline(v@, from as int),
        from <= r.1 <= r.0 <= v@.len(),
        r.0 < v@.len() ==> r.0 < usize::MAX,
        lines_from(v@, from as int) == seq![v@.subrange(from as int, r.1 as int)] + lines_from(
            v@,
            r.0 + 1,
        ),
{
    let n = v.len();
    let mut i = from;
    while i < n && v[i] != '\n'
        invariant
            from <= i <= n == v@.len(),
            next_newline(v@, from as int) == next_newline(v@, i as int),
        decreases n - i,
    {
        i += 1;
    }
    proof {
        lemma_next_newline(v@, from as int);
    }
    let mut le = i;
    if i < n && i > from && v[i - 1] == '\r' {
        le = i - 1;
    }
    assert(i < n ==> v@.subrange(from as int, le as int) =~= strip_cr(
        v@.subrange(from as int, i as int),
    ));
    (i, le)
}

/// Whether `c` has the Unicode `White_Space` property, which is what
/// `char::is_whitespace` and `str::trim` go by.
pub open spec fn is_white_space(c: char) -> bool {
    let u = c as u32;
    ||| 0x9 <= u <= 0xd
    ||| u == 0x20
    ||| u == 0x85
    ||| u == 0xa0
    ||| u == 0x1680
    ||| 0x2000 <= u <= 0x200a
    ||| u == 0x2028
    ||| u == 0x2029
    ||| u == 0x202f
    ||| u == 0x205f
    ||| u == 0x3000
}

/// Whether `c` is white space.
pub fn white_space(c: char) -> (r: bool)
    ensures
        r == is_white_space(c),
{
    let u = c as u32;
    (0x9 <= u && u <= 0xd) || u == 0x20 || u == 0x85 || u == 0xa0 || u == 0x1680 || (0x2000 <= u
        && u <= 0x200a) || u == 0x2028 || u == 0x2029 || u == 0x202f || u == 0x205f || u == 0x3000
}

/// The first index at or after `i` that holds no white space, or the length.
pub open spec fn trim_start_from(s: Seq<char>, i: int) -> int
    decreases s.len() - i,
{
    if i < 0 || i >= s.len() {
        s.len() as int
    } else if is_white_space(s[i]) {
        trim_start_from(s, i + 1)
    } else {
        i
    }
}

/// The end of `s[0..j]` once trailing white space is cut off.
pub open spec fn trim_end_to(s: Seq<char>, j: int) -> int
    decreases j,
{
    if j <= 0 || j > s.len() {
        0
    } else if is_white_space(s[j - 1]) {
        trim_end_to(s, j - 1)
    } else {
        j
    }
}

/// `s` without leading and trailing white space, as `str::trim` gives it.
pub open spec fn trimmed(s: Seq<char>) -> Seq<char> {
    let a = trim_start_from(s, 0);
    let b = trim_end_to(s, s.len() as int);
    if a < b {
        s.subrange(a, b)
    } else {
        seq![]
    }
}

/// Returns `s` without leading and trailing white space.
pub fn trim(s: &str) -> (r: String)
    ensures
        r@ == trimmed(s@),
{
    let v = chars_of(s);
    let n = v.len();
    let mut a: usize = 0;
    while a < n && white_space(v[a])
        invariant
            a <= n == v@.len(),
            trim_start_from(v@, 0) == trim_start_from(v@, a as int),
        decreases n - a,
    {
        a += 1;
    }
    let mut b: usize = n;
    while b > 0 && white_space(v[b - 1])
        invariant
            b <= n == v@.len(),
            trim_end_to(v@, n as int) == trim_end_to(v@, b as int),
        decreases b,
    {
        b -= 1;
    }
    if a < b {
        string_from(&v, a, b)
    } else {
        String::new()
    }
}

} // verus!
