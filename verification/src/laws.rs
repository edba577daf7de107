//! What holds across the functions of the library: a desktop file rewritten
//! for an AppImage, once written and read back, launches that AppImage and
//! keeps its other fields; names survive moving and copying.

use vstd::prelude::*;
use crate::desktop::{
    app_run, exec_prefix, exec_value_for, files_placeholder, icon_prefix, join_lines, modified_content,
    quoted, rewrite_line, rewrite_lines, exec_program, quoted_at, word_chars, first_word_end_from,
    first_word_ends_at, separates_at, first_value, last_value, field_of, key_prefix,
    launches_file_named_like, referenced_by, DesktopEntry, try_exec_prefix,
};
use crate::appimage::{counts_as_executable, icon_copy_path};
use crate::config::{data_home, install_dir};
use crate::cli::{dir_or_empty, lists_path, merged, move_target, AppImageEntry};
use crate::path::{
    base_name, desktop_extension, extension, file_name, joined, last_component, last_dot_before,
    lemma_file_name_shape, lemma_segment_start, segment_start, parent_path, body_start,
    skip_empty_back, before_segment, segment_from,
};
use crate::desktop::{desktop_suffix, entry_file_path, underscored};
use crate::text::{lines, lines_from, next_newline, strip_cr, lemma_next_newline};

verus! {

broadcast use vstd::seq_lib::group_seq_properties;

/// No character of any of `ms` is a newline.
pub open spec fn no_newlines(ms: Seq<Seq<char>>) -> bool {
    forall|i: int, j: int| 0 <= i < ms.len() && 0 <= j < ms[i].len() ==> #[trigger] ms[i][j] != '\n'
}

proof fn lemma_next_newline_shift(p: Seq<char>, q: Seq<char>, k: int)
    requires
        0 <= k <= q.len(),
    ensures
        next_newline(p + q, p.len() + k) == p.len() + next_newline(q, k),
    decreases q.len() - k,
{
    if k < q.len() {
        assert((p + q)[p.len() + k] == q[k]);
        if q[k] != '\n' {
            lemma_next_newline_shift(p, q, k + 1);
        }
    }
}

proof fn lemma_lines_from_shift(p: Seq<char>, q: Seq<char>, k: int)
    requires
        0 <= k,
    ensures
        lines_from(p + q, p.len() + k) == lines_from(q, k),
    decreases q.len() - k,
{
    if k < q.len() {
        lemma_next_newline_shift(p, q, k);
        lemma_next_newline(q, k);
        let e = next_newline(q, k);
        assert((p + q).subrange(p.len() + k, p.len() + e) =~= q.subrange(k, e));
        if e < q.len() {
            lemma_lines_from_shift(p, q, e + 1);
        }
    }
}

proof fn lemma_next_newline_at(m: Seq<char>, r: Seq<char>, j: int)
    requires
        0 <= j <= m.len(),
        forall|x: int| 0 <= x < m.len() ==> m[x] != '\n',
        r.len() > 0,
        r[0] == '\n',
    ensures
        next_newline(m + r, j) == m.len(),
    decreases m.len() - j,
{
    if j < m.len() {
        assert((m + r)[j] == m[j]);
        lemma_next_newline_at(m, r, j + 1);
    } else {
        assert((m + r)[j] == r[0]);
    }
}

/// Lines joined with newlines split back into the same lines, each without
/// a trailing carriage return.
pub proof fn lemma_lines_of_joined(ms: Seq<Seq<char>>)
    requires
        no_newlines(ms),
    ensures
        lines(join_lines(ms)) == ms.map_values(|m: Seq<char>| strip_cr(m)),
    decreases ms.len(),
{
    if ms.len() == 0 {
        assert(ms.map_values(|m: Seq<char>| strip_cr(m)) =~= Seq::<Seq<char>>::empty());
    } else {
        let m = ms[0];
        let rest = ms.drop_first();
        assert(no_newlines(rest)) by {
            assert forall|i: int, j: int| 0 <= i < rest.len() && 0 <= j < rest[i].len() implies #[trigger] rest[i][j] != '\n' by {
                assert(rest[i] == ms[i + 1]);
            }
        }
        lemma_lines_of_joined(rest);
        let j = join_lines(rest);
        let s = join_lines(ms);
        let r = seq!['\n'] + j;
        assert(s =~= m + r);
        assert(forall|x: int| 0 <= x < m.len() ==> m[x] != '\n') by {
            assert forall|x: int| 0 <= x < m.len() implies m[x] != '\n' by {
                assert(ms[0][x] == m[x]);
            }
        }
        lemma_next_newline_at(m, r, 0);
        assert(s.subrange(0, m.len() as int) =~= m);
        lemma_lines_from_shift(m + seq!['\n'], j, 0);
        assert(m + seq!['\n'] + j =~= s);
        assert(lines_from(s, m.len() + 1int) == lines_from(j, 0));
        assert(lines(s) =~= seq![strip_cr(m)] + lines(j));
        assert(ms.map_values(|m: Seq<char>| strip_cr(m)) =~= seq![strip_cr(m)] + rest.map_values(
            |m: Seq<char>| strip_cr(m),
        ));
    }
}

/// No line of a text holds a newline.
pub proof fn lemma_lines_have_no_newline(s: Seq<char>, from: int)
    requires
        0 <= from,
    ensures
        no_newlines(lines_from(s, from)),
    decreases s.len() - from,
{
    if from < s.len() {
        lemma_next_newline(s, from);
        let e = next_newline(s, from);
        let ls = lines_from(s, from);
        if e < s.len() {
            lemma_lines_have_no_newline(s, e + 1);
        }
        assert forall|i: int, j: int| 0 <= i < ls.len() && 0 <= j < ls[i].len() implies #[trigger] ls[i][j] != '\n' by {
            if i == 0 {
                assert(ls[0][j] == s[from + j]);
            } else {
                assert(ls[i] == lines_from(s, e + 1)[i - 1]);
            }
        }
    }
}

proof fn lemma_no_newline_seq(s: Seq<char>)
    ensures
        !s.contains('\n') <==> forall|j: int| 0 <= j < s.len() ==> s[j] != '\n',
{
    if !s.contains('\n') {
        assert forall|j: int| 0 <= j < s.len() implies s[j] != '\n' by {
            if s[j] == '\n' {
                assert(s.contains('\n'));
            }
        }
    }
}

/// A rewritten line holds a newline only if the line, the AppImage path or
/// the icon path does.
proof fn lemma_rewrite_line_no_newline(l: Seq<char>, app: Seq<char>, icon: Seq<char>)
    requires
        !l.contains('\n'),
        !app.contains('\n'),
        !icon.contains('\n'),
    ensures
        rewrite_line(l, app, icon) matches Some(x) ==> !x.contains('\n'),
{
    assert(!exec_prefix().contains('\n')) by {
        lemma_no_newline_seq(exec_prefix());
    }
    assert(!icon_prefix().contains('\n')) by {
        lemma_no_newline_seq(icon_prefix());
    }
    assert(!files_placeholder().contains('\n')) by {
        lemma_no_newline_seq(files_placeholder());
    }
    assert(!seq!['"'].contains('\n')) by {
        lemma_no_newline_seq(seq!['"']);
    }
    assert(!quoted(app).contains('\n'));
    if exec_prefix().is_prefix_of(l) {
        let v = l.skip(5);
        assert(!v.contains('\n'));
        if app_run().is_prefix_of(v) {
            assert(!v.skip(6).contains('\n'));
        }
        assert(!exec_value_for(v, app).contains('\n'));
    }
}

/// Rewritten lines hold no newline when neither the lines nor the two paths
/// do.
proof fn lemma_rewrite_lines_no_newline(ls: Seq<Seq<char>>, app: Seq<char>, icon: Seq<char>)
    requires
        no_newlines(ls),
        !app.contains('\n'),
        !icon.contains('\n'),
    ensures
        no_newlines(rewrite_lines(ls, app, icon)),
    decreases ls.len(),
{
    if ls.len() > 0 {
        let rest = ls.drop_first();
        assert(no_newlines(rest)) by {
            assert forall|i: int, j: int| 0 <= i < rest.len() && 0 <= j < rest[i].len() implies #[trigger] rest[i][j] != '\n' by {
                assert(rest[i] == ls[i + 1]);
            }
        }
        lemma_rewrite_lines_no_newline(rest, app, icon);
        lemma_no_newline_seq(ls[0]);
        lemma_rewrite_line_no_newline(ls[0], app, icon);
        let rs = rewrite_lines(ls, app, icon);
        let rr = rewrite_lines(rest, app, icon);
        if let Some(x) = rewrite_line(ls[0], app, icon) {
            lemma_no_newline_seq(x);
            assert forall|i: int, j: int| 0 <= i < rs.len() && 0 <= j < rs[i].len() implies #[trigger] rs[i][j] != '\n' by {
                if i > 0 {
                    assert(rs[i] == rr[i - 1]);
                }
            }
        }
    }
}

/// Read back, a rewritten desktop file has the rewritten lines, each
/// without a trailing carriage return.
pub proof fn lemma_lines_of_modified(content: Seq<char>, app: Seq<char>, icon: Seq<char>)
    requires
        !app.contains('\n'),
        !icon.contains('\n'),
    ensures
        lines(modified_content(content, app, icon)) == rewrite_lines(lines(content), app, icon).map_values(
            |m: Seq<char>| strip_cr(m),
        ),
{
    lemma_lines_have_no_newline(content, 0);
    lemma_rewrite_lines_no_newline(lines(content), app, icon);
    lemma_lines_of_joined(rewrite_lines(lines(content), app, icon));
}

/// Inside `"app"`, every position after the opening quote is quoted, and
/// the word characters so far are the first characters of `app`.
proof fn lemma_quoted_word(app: Seq<char>, t: Seq<char>, i: int)
    requires
        !app.contains('"'),
        1 <= i <= app.len() + 1,
    ensures
        quoted_at(quoted(app) + t, i),
        word_chars(quoted(app) + t, i) == app.take(i - 1),
    decreases i,
{
    let s = quoted(app) + t;
    assert(s[0] == '"');
    if i == 1 {
        assert(quoted_at(s, 0) == false);
        assert(word_chars(s, 0) == Seq::<char>::empty());
        assert(app.take(0) =~= Seq::<char>::empty());
    } else {
        lemma_quoted_word(app, t, i - 1);
        assert(s[i - 1] == app[i - 2]);
        if app[i - 2] == '"' {
            assert(app.contains('"'));
        }
        assert(!separates_at(s, i - 1));
        assert(app.take(i - 1) =~= app.take(i - 2).push(app[i - 2]));
    }
}

/// No position before the closing quote ends the first word.
proof fn lemma_quoted_no_end(app: Seq<char>, t: Seq<char>, i: int)
    requires
        !app.contains('"'),
        0 <= i <= app.len() + 2,
    ensures
        first_word_end_from(quoted(app) + t, i) == first_word_end_from(
            quoted(app) + t,
            app.len() + 2int,
        ),
    decreases app.len() + 2 - i,
{
    let s = quoted(app) + t;
    if i < app.len() + 2 {
        lemma_quoted_no_end(app, t, i + 1);
        if i == 0 {
            assert(s[0] == '"');
        } else if i <= app.len() {
            lemma_quoted_word(app, t, i);
        } else {
            assert(s[i] == '"');
        }
        assert(!first_word_ends_at(s, i));
    }
}

/// A quoted path followed by nothing or by a space launches that path.
pub proof fn lemma_exec_program_of_quoted(app: Seq<char>, t: Seq<char>)
    requires
        app.len() > 0,
        !app.contains('"'),
        t.len() == 0 || t[0] == ' ',
    ensures
        exec_program(quoted(app) + t) == app,
{
    let s = quoted(app) + t;
    let n = app.len() as int;
    lemma_quoted_word(app, t, n + 1);
    lemma_quoted_no_end(app, t, 0);
    assert(s[n + 1] == '"');
    assert(app.take(n) =~= app);
    assert(word_chars(s, n + 2) == app);
    assert(quoted_at(s, n + 2) == false);
    if t.len() > 0 {
        assert(s[n + 2] == t[0]);
        assert(first_word_ends_at(s, n + 2));
    }
    assert(first_word_end_from(s, n + 2) == n + 2);
}

/// A prefix that does not end in a carriage return begins a line exactly
/// when it begins the line without its trailing carriage return, and the
/// rest is the same up to that carriage return.
proof fn lemma_prefix_strip_cr(p: Seq<char>, l: Seq<char>)
    requires
        p.len() > 0,
        p.last() != '\r',
    ensures
        p.is_prefix_of(strip_cr(l)) <==> p.is_prefix_of(l),
        p.is_prefix_of(l) ==> strip_cr(l).skip(p.len() as int) == strip_cr(l.skip(p.len() as int)),
{
    if l.len() > 0 && l.last() == '\r' {
        if p.is_prefix_of(l) {
            assert(p.len() < l.len()) by {
                if p.len() == l.len() {
                    assert(p.last() == l[l.len() - 1]);
                }
            }
            assert(p =~= l.drop_last().subrange(0, p.len() as int));
            assert(strip_cr(l).skip(p.len() as int) =~= strip_cr(l.skip(p.len() as int)));
        }
        if p.is_prefix_of(strip_cr(l)) {
            assert(p =~= l.subrange(0, p.len() as int));
        }
    }
}

/// The value of the first line that begins with `p` has property `q` when
/// every such line's value has it and one such line exists.
proof fn lemma_first_value_property(
    ls: Seq<Seq<char>>,
    p: Seq<char>,
    q: spec_fn(Seq<char>) -> bool,
)
    requires
        forall|i: int|
            0 <= i < ls.len() && p.is_prefix_of(#[trigger] ls[i]) ==> q(
                ls[i].skip(p.len() as int),
            ),
        exists|i: int| 0 <= i < ls.len() && p.is_prefix_of(#[trigger] ls[i]),
    ensures
        q(first_value(ls, p)),
    decreases ls.len(),
{
    if !p.is_prefix_of(ls[0]) {
        let rest = ls.drop_first();
        let i = choose|i: int| 0 <= i < ls.len() && p.is_prefix_of(#[trigger] ls[i]);
        assert(rest[i - 1] == ls[i]);
        assert forall|j: int| 0 <= j < rest.len() && p.is_prefix_of(#[trigger] rest[j]) implies q(
            rest[j].skip(p.len() as int),
        ) by {
            assert(rest[j] == ls[j + 1]);
        }
        lemma_first_value_property(rest, p, q);
    }
}

/// The values of the lines of `ls` that begin with `p`, in order.
pub open spec fn values_of(ls: Seq<Seq<char>>, p: Seq<char>) -> Seq<Seq<char>>
    decreases ls.len(),
{
    if ls.len() == 0 {
        seq![]
    } else {
        let rest = values_of(ls.drop_first(), p);
        if p.is_prefix_of(ls[0]) {
            seq![ls[0].skip(p.len() as int)] + rest
        } else {
            rest
        }
    }
}

/// The first value is the first of the values, or empty.
proof fn lemma_first_value_values(ls: Seq<Seq<char>>, p: Seq<char>)
    ensures
        first_value(ls, p) == if values_of(ls, p).len() > 0 {
            values_of(ls, p)[0]
        } else {
            Seq::<char>::empty()
        },
    decreases ls.len(),
{
    if ls.len() > 0 {
        lemma_first_value_values(ls.drop_first(), p);
    }
}

/// Adding a line at the end adds its value at the end.
proof fn lemma_values_push(ls: Seq<Seq<char>>, l: Seq<char>, p: Seq<char>)
    ensures
        values_of(ls.push(l), p) == values_of(ls, p) + if p.is_prefix_of(l) {
            seq![l.skip(p.len() as int)]
        } else {
            Seq::<Seq<char>>::empty()
        },
    decreases ls.len(),
{
    let t = ls.push(l);
    if ls.len() == 0 {
        assert(t.drop_first() =~= Seq::<Seq<char>>::empty());
        assert(t[0] == l);
    } else {
        assert(t.drop_first() =~= ls.drop_first().push(l));
        assert(t[0] == ls[0]);
        lemma_values_push(ls.drop_first(), l, p);
    }
}

/// The last value is the last of the values, or empty.
proof fn lemma_last_value_values(ls: Seq<Seq<char>>, p: Seq<char>)
    ensures
        last_value(ls, p) == if values_of(ls, p).len() > 0 {
            values_of(ls, p).last()
        } else {
            Seq::<char>::empty()
        },
    decreases ls.len(),
{
    if ls.len() > 0 {
        let init = ls.drop_last();
        lemma_last_value_values(init, p);
        assert(init.push(ls.last()) =~= ls);
        lemma_values_push(init, ls.last(), p);
    }
}

/// A line that begins with `p` gives a value.
proof fn lemma_values_nonempty(ls: Seq<Seq<char>>, p: Seq<char>, i: int)
    requires
        0 <= i < ls.len(),
        p.is_prefix_of(ls[i]),
    ensures
        values_of(ls, p).len() > 0,
    decreases i,
{
    if i > 0 && !p.is_prefix_of(ls[0]) {
        assert(ls.drop_first()[i - 1] == ls[i]);
        lemma_values_nonempty(ls.drop_first(), p, i - 1);
    }
}

/// What one line becomes, as far as `Exec=` goes: an `Exec=` line becomes
/// an `Exec=` line whose value, read back, is the rewritten command; any
/// other line becomes no `Exec=` line.
proof fn lemma_rewrite_exec_line(l: Seq<char>, app: Seq<char>, icon: Seq<char>)
    ensures
        exec_prefix().is_prefix_of(l) ==> (rewrite_line(l, app, icon) matches Some(x) && exec_prefix().is_prefix_of(strip_cr(x))
            && strip_cr(x).skip(5) == strip_cr(exec_value_for(l.skip(5), app))),
        !exec_prefix().is_prefix_of(l) ==> (rewrite_line(l, app, icon) matches Some(x) ==> !exec_prefix().is_prefix_of(strip_cr(x))),
{
    let e = exec_prefix();
    assert(e.len() == 5 && e.last() == '=');
    if let Some(x) = rewrite_line(l, app, icon) {
        lemma_prefix_strip_cr(e, x);
        if e.is_prefix_of(l) {
            assert(x =~= e + exec_value_for(l.skip(5), app));
            assert(x.skip(5) =~= exec_value_for(l.skip(5), app));
        } else if icon_prefix().is_prefix_of(l) && icon.len() > 0 {
            assert(x[0] == 'I');
            assert(!e.is_prefix_of(x)) by {
                if e.is_prefix_of(x) {
                    assert(x[0] == e[0]);
                }
            }
        }
    }
}

/// Rewritten lines read back carry, in order, the rewritten commands of the
/// `Exec=` lines.
proof fn lemma_values_rewritten(ls: Seq<Seq<char>>, app: Seq<char>, icon: Seq<char>)
    ensures
        values_of(rewrite_lines(ls, app, icon).map_values(|m: Seq<char>| strip_cr(m)), exec_prefix())
            == values_of(ls, exec_prefix()).map_values(
            |v: Seq<char>| strip_cr(exec_value_for(v, app)),
        ),
    decreases ls.len(),
{
    let e = exec_prefix();
    let r = rewrite_lines(ls, app, icon).map_values(|m: Seq<char>| strip_cr(m));
    let f = |v: Seq<char>| strip_cr(exec_value_for(v, app));
    if ls.len() == 0 {
        assert(r =~= Seq::<Seq<char>>::empty());
        assert(values_of(ls, e).map_values(f) =~= Seq::<Seq<char>>::empty());
    } else {
        let l = ls[0];
        let rest = ls.drop_first();
        lemma_values_rewritten(rest, app, icon);
        lemma_rewrite_exec_line(l, app, icon);
        let rr = rewrite_lines(rest, app, icon).map_values(|m: Seq<char>| strip_cr(m));
        let vr = values_of(rest, e);
        match rewrite_line(l, app, icon) {
            Some(x) => {
                assert(r =~= seq![strip_cr(x)] + rr);
                assert(r[0] == strip_cr(x));
                assert(r.drop_first() =~= rr);
                if e.is_prefix_of(l) {
                    assert(values_of(ls, e) =~= seq![l.skip(5)] + vr);
                    assert((seq![l.skip(5)] + vr).map_values(f) =~= seq![f(l.skip(5))] + vr.map_values(f));
                } else {
                    assert(values_of(ls, e) =~= vr);
                }
            },
            None => {
                assert(r =~= rr);
                assert(values_of(ls, e) =~= vr);
            },
        }
    }
}

/// A command that can be pointed at an AppImage and still be read back as
/// that AppImage: it does not start with `AppRun`, or what follows `AppRun`
/// is nothing or begins with a space.
pub open spec fn launcher_value_ok(v: Seq<char>) -> bool {
    !app_run().is_prefix_of(v) || v.len() == 6 || v[6] == ' '
}

/// Such a command, rewritten and read back, launches the AppImage.
proof fn lemma_value_launches(v: Seq<char>, app: Seq<char>)
    requires
        app.len() > 0,
        !app.contains('"'),
        launcher_value_ok(v),
    ensures
        exec_program(strip_cr(exec_value_for(v, app))) == app,
{
    let tail = if app_run().is_prefix_of(v) {
        v.skip(6)
    } else {
        files_placeholder()
    };
    assert(exec_value_for(v, app) == quoted(app) + tail);
    let t2 = strip_cr(tail);
    assert(tail.len() == 0 || tail[0] == ' ');
    assert(t2.len() == 0 || t2[0] == ' ') by {
        if tail.len() == 1 {
            assert(tail.last() == ' ');
        }
    }
    assert(strip_cr(quoted(app) + tail) =~= quoted(app) + t2) by {
        if tail.len() == 0 {
            assert((quoted(app) + tail).last() == '"');
        } else {
            assert((quoted(app) + tail).last() == tail.last());
        }
    }
    lemma_exec_program_of_quoted(app, t2);
}

/// The `Exec=` values of a desktop file pointed at an AppImage, read back,
/// are the rewritten `Exec=` values of the file, in order; there is at least
/// one when the file has an `Exec=` line.
proof fn lemma_exec_values_of_modified(content: Seq<char>, app: Seq<char>, icon: Seq<char>)
    requires
        !app.contains('\n'),
        !icon.contains('\n'),
        exists|i: int| 0 <= i < lines(content).len() && exec_prefix().is_prefix_of(#[trigger] lines(content)[i]),
    ensures
        ({
            let vals = values_of(lines(content), exec_prefix());
            let rvals = values_of(lines(modified_content(content, app, icon)), exec_prefix());
            &&& vals.len() > 0
            &&& rvals.len() == vals.len()
            &&& rvals[0] == strip_cr(exec_value_for(vals[0], app))
            &&& rvals.last() == strip_cr(exec_value_for(vals.last(), app))
            &&& first_value(lines(content), exec_prefix()) == vals[0]
            &&& last_value(lines(content), exec_prefix()) == vals.last()
            &&& first_value(lines(modified_content(content, app, icon)), exec_prefix()) == rvals[0]
            &&& last_value(lines(modified_content(content, app, icon)), exec_prefix()) == rvals.last()
        }),
{
    let m = modified_content(content, app, icon);
    let ls = lines(content);
    let e = exec_prefix();
    let f = |v: Seq<char>| strip_cr(exec_value_for(v, app));
    lemma_lines_of_modified(content, app, icon);
    lemma_values_rewritten(ls, app, icon);
    let i = choose|i: int| 0 <= i < ls.len() && e.is_prefix_of(#[trigger] ls[i]);
    lemma_values_nonempty(ls, e, i);
    let vals = values_of(ls, e);
    let rvals = values_of(lines(m), e);
    assert(rvals == vals.map_values(f));
    lemma_first_value_values(ls, e);
    lemma_last_value_values(ls, e);
    lemma_first_value_values(lines(m), e);
    lemma_last_value_values(lines(m), e);
    assert(rvals[0] == f(vals[0]));
    assert(rvals.last() == f(vals.last()));
}

/// A desktop file pointed at an AppImage, once written and read back,
/// launches that AppImage from its first `Exec=` line, the one the `Exec`
/// field is read from. This holds when the path is not empty and holds no
/// double quote or newline, the icon path holds no newline, the file has an
/// `Exec=` line, and its first `Exec=` command, when it is `AppRun`, is
/// followed by nothing or by a space.
pub proof fn law_rewritten_file_launches_appimage(
    content: Seq<char>,
    app: Seq<char>,
    icon: Seq<char>,
)
    requires
        app.len() > 0,
        !app.contains('"'),
        !app.contains('\n'),
        !icon.contains('\n'),
        exists|i: int| 0 <= i < lines(content).len() && exec_prefix().is_prefix_of(#[trigger] lines(content)[i]),
        launcher_value_ok(first_value(lines(content), exec_prefix())),
    ensures
        exec_program(field_of(modified_content(content, app, icon), seq!['E', 'x', 'e', 'c'])) == app,
{
    lemma_exec_values_of_modified(content, app, icon);
    lemma_value_launches(first_value(lines(content), exec_prefix()), app);
    assert(key_prefix(seq!['E', 'x', 'e', 'c']) =~= exec_prefix());
}

/// A desktop file pointed at an AppImage, once written and read back as an
/// entry, refers to that AppImage: the entry's command, taken from the last
/// `Exec=` line, runs exactly the AppImage's path. This holds when the path
/// is not empty and holds no double quote or newline, the icon path holds no
/// newline, the file has an `Exec=` line, and its last `Exec=` command, when
/// it is `AppRun`, is followed by nothing or by a space.
pub proof fn law_installed_entry_refers_to_appimage(
    content: Seq<char>,
    app: Seq<char>,
    icon: Seq<char>,
)
    requires
        app.len() > 0,
        !app.contains('"'),
        !app.contains('\n'),
        !icon.contains('\n'),
        exists|i: int| 0 <= i < lines(content).len() && exec_prefix().is_prefix_of(#[trigger] lines(content)[i]),
        launcher_value_ok(last_value(lines(content), exec_prefix())),
    ensures
        exec_program(last_value(lines(modified_content(content, app, icon)), exec_prefix())) == app,
        forall|e: DesktopEntry|
            e.exec_line@ == last_value(lines(modified_content(content, app, icon)), exec_prefix())
                ==> referenced_by(seq![e], app),
{
    lemma_exec_values_of_modified(content, app, icon);
    lemma_value_launches(last_value(lines(content), exec_prefix()), app);
    assert forall|en: DesktopEntry|
        en.exec_line@ == last_value(lines(modified_content(content, app, icon)), exec_prefix()) implies referenced_by(
        seq![en], app) by {
        assert(seq![en][0] == en);
        assert(launches_file_named_like(seq![en][0].exec_line@, app));
    }
}

/// A line that sets the field `w` (which ends in `=`) does not set any other
/// field `k` that holds no `=`.
proof fn lemma_other_key_not_prefix(k: Seq<char>, w: Seq<char>, x: Seq<char>)
    requires
        !k.contains('='),
        w.len() > 0,
        w.last() == '=',
        !w.drop_last().contains('='),
        k != w.drop_last(),
        w.is_prefix_of(x),
    ensures
        !key_prefix(k).is_prefix_of(x),
{
    let p = key_prefix(k);
    let n = k.len() as int;
    let m = w.len() - 1;
    if p.is_prefix_of(x) {
        assert(p[n] == '=');
        assert(x[n] == '=');
        if n < m {
            assert(w[n] == x[n]);
            assert(w.drop_last()[n] == w[n]);
        } else if n > m {
            assert(x[m] == w[m]);
            assert(p[m] == x[m]);
            assert(k[m] == p[m]);
        } else {
            assert(k =~= w.drop_last()) by {
                assert forall|j: int| 0 <= j < n implies k[j] == w.drop_last()[j] by {
                    assert(k[j] == p[j]);
                    assert(p[j] == x[j]);
                    assert(x[j] == w[j]);
                }
            }
        }
    }
}

/// Setting the field `k` is judged the same on a line and on that line
/// without its trailing carriage return.
proof fn lemma_key_prefix_strip_cr(k: Seq<char>, l: Seq<char>)
    ensures
        key_prefix(k).is_prefix_of(strip_cr(l)) <==> key_prefix(k).is_prefix_of(l),
        key_prefix(k).is_prefix_of(l) ==> strip_cr(l).skip(key_prefix(k).len() as int) == strip_cr(
            l.skip(key_prefix(k).len() as int),
        ),
{
    lemma_prefix_strip_cr(key_prefix(k), l);
}

/// `Exec`
pub open spec fn exec_key() -> Seq<char> {
    seq!['E', 'x', 'e', 'c']
}

/// `TryExec`
pub open spec fn try_exec_key() -> Seq<char> {
    seq!['T', 'r', 'y', 'E', 'x', 'e', 'c']
}

/// `Icon`
pub open spec fn icon_key() -> Seq<char> {
    seq!['I', 'c', 'o', 'n']
}

proof fn lemma_keys_shape()
    ensures
        exec_prefix().drop_last() == exec_key(),
        try_exec_prefix().drop_last() == try_exec_key(),
        icon_prefix().drop_last() == icon_key(),
        exec_prefix().last() == '=',
        try_exec_prefix().last() == '=',
        icon_prefix().last() == '=',
        !exec_key().contains('='),
        !try_exec_key().contains('='),
        !icon_key().contains('='),
{
    assert(exec_prefix().drop_last() =~= exec_key());
    assert(try_exec_prefix().drop_last() =~= try_exec_key());
    assert(icon_prefix().drop_last() =~= icon_key());
    assert(!exec_key().contains('=')) by {
        if exec_key().contains('=') {
            let j = choose|j: int| 0 <= j < exec_key().len() && exec_key()[j] == '=';
        }
    }
    assert(!try_exec_key().contains('=')) by {
        if try_exec_key().contains('=') {
            let j = choose|j: int| 0 <= j < try_exec_key().len() && try_exec_key()[j] == '=';
        }
    }
    assert(!icon_key().contains('=')) by {
        if icon_key().contains('=') {
            let j = choose|j: int| 0 <= j < icon_key().len() && icon_key()[j] == '=';
        }
    }
}

/// A line that begins with `w=` still does once a trailing carriage return
/// is taken off.
proof fn lemma_strip_keeps_prefix(w: Seq<char>, x: Seq<char>)
    requires
        w.is_prefix_of(x),
        w.len() > 0,
        w.last() == '=',
    ensures
        w.is_prefix_of(strip_cr(x)),
{
    lemma_prefix_strip_cr(w, x);
}

/// Rewriting keeps the value of every field other than `Exec`, `TryExec`
/// and (when an icon is set) `Icon`, up to a trailing carriage return.
proof fn lemma_rewrite_keeps_field(ls: Seq<Seq<char>>, app: Seq<char>, icon: Seq<char>, k: Seq<char>)
    requires
        !k.contains('='),
        k != exec_key(),
        k != try_exec_key(),
        icon.len() > 0 ==> k != icon_key(),
    ensures
        first_value(
            rewrite_lines(ls, app, icon).map_values(|m: Seq<char>| strip_cr(m)),
            key_prefix(k),
        ) == strip_cr(first_value(ls, key_prefix(k))),
    decreases ls.len(),
{
    let p = key_prefix(k);
    let r = rewrite_lines(ls, app, icon).map_values(|m: Seq<char>| strip_cr(m));
    if ls.len() == 0 {
        assert(r =~= Seq::<Seq<char>>::empty());
        assert(strip_cr(Seq::<char>::empty()) =~= Seq::<char>::empty());
    } else {
        let l = ls[0];
        let rest = ls.drop_first();
        lemma_rewrite_keeps_field(rest, app, icon, k);
        let rr = rewrite_lines(rest, app, icon).map_values(|m: Seq<char>| strip_cr(m));
        lemma_keys_shape();
        lemma_key_prefix_strip_cr(k, l);
        if exec_prefix().is_prefix_of(l) {
            lemma_other_key_not_prefix(k, exec_prefix(), l);
            let x = rewrite_line(l, app, icon)->0;
            assert(exec_prefix().is_prefix_of(x));
            lemma_strip_keeps_prefix(exec_prefix(), x);
            lemma_other_key_not_prefix(k, exec_prefix(), strip_cr(x));
            assert(r =~= seq![strip_cr(x)] + rr);
            assert(r[0] == strip_cr(x));
            assert(r.drop_first() =~= rr);
        } else if try_exec_prefix().is_prefix_of(l) {
            lemma_other_key_not_prefix(k, try_exec_prefix(), l);
            assert(r =~= rr);
        } else if icon_prefix().is_prefix_of(l) && icon.len() > 0 {
            lemma_other_key_not_prefix(k, icon_prefix(), l);
            let x = icon_prefix() + icon;
            assert(icon_prefix().is_prefix_of(x));
            lemma_strip_keeps_prefix(icon_prefix(), x);
            lemma_other_key_not_prefix(k, icon_prefix(), strip_cr(x));
            assert(r =~= seq![strip_cr(x)] + rr);
            assert(r[0] == strip_cr(x));
            assert(r.drop_first() =~= rr);
        } else {
            assert(r =~= seq![strip_cr(l)] + rr);
            assert(r[0] == strip_cr(l));
            assert(r.drop_first() =~= rr);
        }
    }
}

/// Pointing a desktop file at an AppImage keeps, as read back, the value of
/// every field other than `Exec`, `TryExec` and (when an icon is given)
/// `Icon`, except for a carriage return that ended it. This holds for keys
/// without `=`, and paths without newlines.
pub proof fn law_rewriting_keeps_other_fields(
    content: Seq<char>,
    app: Seq<char>,
    icon: Seq<char>,
    key: Seq<char>,
)
    requires
        !app.contains('\n'),
        !icon.contains('\n'),
        !key.contains('='),
        key != exec_key(),
        key != try_exec_key(),
        icon.len() > 0 ==> key != icon_key(),
    ensures
        field_of(modified_content(content, app, icon), key) == strip_cr(field_of(content, key)),
{
    lemma_lines_of_modified(content, app, icon);
    lemma_rewrite_keeps_field(lines(content), app, icon, key);
}

/// Among rewritten lines read back, none sets `TryExec`.
proof fn lemma_no_try_exec(ls: Seq<Seq<char>>, app: Seq<char>, icon: Seq<char>)
    ensures
        first_value(
            rewrite_lines(ls, app, icon).map_values(|m: Seq<char>| strip_cr(m)),
            try_exec_prefix(),
        ) == Seq::<char>::empty(),
    decreases ls.len(),
{
    let r = rewrite_lines(ls, app, icon).map_values(|m: Seq<char>| strip_cr(m));
    if ls.len() == 0 {
        assert(r =~= Seq::<Seq<char>>::empty());
    } else {
        let l = ls[0];
        let rest = ls.drop_first();
        lemma_no_try_exec(rest, app, icon);
        let rr = rewrite_lines(rest, app, icon).map_values(|m: Seq<char>| strip_cr(m));
        lemma_keys_shape();
        let t = try_exec_prefix();
        match rewrite_line(l, app, icon) {
            Some(x) => {
                assert(r =~= seq![strip_cr(x)] + rr);
                assert(r[0] == strip_cr(x));
                assert(r.drop_first() =~= rr);
                lemma_prefix_strip_cr(t, x);
                if exec_prefix().is_prefix_of(l) {
                    assert(x[0] == 'E');
                    assert(!t.is_prefix_of(x)) by {
                        if t.is_prefix_of(x) {
                            assert(t[0] == x[0]);
                        }
                    }
                } else if icon_prefix().is_prefix_of(l) && icon.len() > 0 {
                    assert(x[0] == 'I');
                    assert(!t.is_prefix_of(x)) by {
                        if t.is_prefix_of(x) {
                            assert(t[0] == x[0]);
                        }
                    }
                }
            },
            None => {
                assert(r =~= rr);
            },
        }
    }
}

/// A desktop file pointed at an AppImage has no `TryExec=` line left, as
/// read back, when the paths hold no newline.
pub proof fn law_rewriting_drops_try_exec(content: Seq<char>, app: Seq<char>, icon: Seq<char>)
    requires
        !app.contains('\n'),
        !icon.contains('\n'),
    ensures
        field_of(modified_content(content, app, icon), try_exec_key()) == Seq::<char>::empty(),
{
    lemma_lines_of_modified(content, app, icon);
    lemma_keys_shape();
    assert(key_prefix(try_exec_key()) =~= try_exec_prefix());
    lemma_no_try_exec(lines(content), app, icon);
}

/// Among rewritten lines read back, every `Icon=` line names the icon, and
/// there is one when the lines before rewriting had one.
proof fn lemma_rewritten_icons(ls: Seq<Seq<char>>, app: Seq<char>, icon: Seq<char>)
    requires
        icon.len() > 0,
        icon.last() != '\r',
    ensures
        ({
            let r = rewrite_lines(ls, app, icon).map_values(|m: Seq<char>| strip_cr(m));
            &&& forall|j: int|
                0 <= j < r.len() && icon_prefix().is_prefix_of(#[trigger] r[j]) ==> r[j].skip(5)
                    == icon
            &&& (exists|i: int| 0 <= i < ls.len() && icon_prefix().is_prefix_of(#[trigger] ls[i]))
                ==> (exists|j: int| 0 <= j < r.len() && icon_prefix().is_prefix_of(#[trigger] r[j]))
        }),
    decreases ls.len(),
{
    let r = rewrite_lines(ls, app, icon).map_values(|m: Seq<char>| strip_cr(m));
    if ls.len() > 0 {
        let l = ls[0];
        let rest = ls.drop_first();
        lemma_rewritten_icons(rest, app, icon);
        let rr = rewrite_lines(rest, app, icon).map_values(|m: Seq<char>| strip_cr(m));
        lemma_keys_shape();
        let c = icon_prefix();
        assert(c.len() == 5);
        match rewrite_line(l, app, icon) {
            Some(x) => {
                assert(r =~= seq![strip_cr(x)] + rr);
                lemma_prefix_strip_cr(c, x);
                if exec_prefix().is_prefix_of(l) {
                    assert(x[0] == 'E');
                    assert(!c.is_prefix_of(x)) by {
                        if c.is_prefix_of(x) {
                            assert(c[0] == x[0]);
                        }
                    }
                } else if c.is_prefix_of(l) {
                    assert(x == c + icon);
                    assert(strip_cr(x) == x);
                    assert(x.skip(5) =~= icon);
                }
                assert forall|j: int|
                    0 <= j < r.len() && c.is_prefix_of(#[trigger] r[j]) implies r[j].skip(5) == icon by {
                    if j > 0 {
                        assert(r[j] == rr[j - 1]);
                    }
                }
                if exists|i: int| 0 <= i < ls.len() && c.is_prefix_of(#[trigger] ls[i]) {
                    let i = choose|i: int| 0 <= i < ls.len() && c.is_prefix_of(#[trigger] ls[i]);
                    if i == 0 {
                        assert(c.is_prefix_of(r[0]));
                    } else {
                        assert(rest[i - 1] == ls[i]);
                        let j = choose|j: int| 0 <= j < rr.len() && c.is_prefix_of(#[trigger] rr[j]);
                        assert(r[j + 1] == rr[j]);
                    }
                }
            },
            None => {
                assert(r =~= rr);
                assert(try_exec_prefix().is_prefix_of(l));
                assert(!c.is_prefix_of(l)) by {
                    if c.is_prefix_of(l) {
                        assert(c[0] == l[0]);
                        assert(try_exec_prefix()[0] == l[0]);
                    }
                }
                if exists|i: int| 0 <= i < ls.len() && c.is_prefix_of(#[trigger] ls[i]) {
                    let i = choose|i: int| 0 <= i < ls.len() && c.is_prefix_of(#[trigger] ls[i]);
                    assert(i != 0);
                    assert(rest[i - 1] == ls[i]);
                }
            },
        }
    }
}

/// A desktop file pointed at an AppImage with an icon names that icon, as
/// read back, when it had an `Icon=` line, the icon path is not empty, holds
/// no newline and does not end in a carriage return, and the AppImage path
/// holds no newline.
pub proof fn law_rewriting_sets_icon(content: Seq<char>, app: Seq<char>, icon: Seq<char>)
    requires
        !app.contains('\n'),
        !icon.contains('\n'),
        icon.len() > 0,
        icon.last() != '\r',
        exists|i: int| 0 <= i < lines(content).len() && icon_prefix().is_prefix_of(#[trigger] lines(content)[i]),
    ensures
        field_of(modified_content(content, app, icon), icon_key()) == icon,
{
    let m = modified_content(content, app, icon);
    lemma_lines_of_modified(content, app, icon);
    lemma_rewritten_icons(lines(content), app, icon);
    lemma_keys_shape();
    assert(key_prefix(icon_key()) =~= icon_prefix());
    let q = |v: Seq<char>| v == icon;
    let r = lines(m);
    assert(icon_prefix().len() == 5);
    lemma_first_value_property(r, icon_prefix(), q);
}

/// The segment that ends at the end of `p + b` starts right after `p` when
/// `p` is empty or ends with `/` and `b` holds no `/`.
proof fn lemma_segment_after(p: Seq<char>, b: Seq<char>, j: int)
    requires
        p.len() == 0 || p.last() == '/',
        !b.contains('/'),
        0 <= j <= b.len(),
    ensures
        segment_start(p + b, p.len() + j) == p.len(),
    decreases j,
{
    let s = p + b;
    if j > 0 {
        assert(s[p.len() + j - 1] == b[j - 1]);
        if b[j - 1] == '/' {
            assert(b.contains('/'));
        }
        lemma_segment_after(p, b, j - 1);
    } else if p.len() > 0 {
        assert(s[p.len() - 1] == p.last());
    }
}

/// A file name put after a directory (empty, or ending with `/`) is the
/// file name of the result.
pub proof fn lemma_file_name_after_dir(p: Seq<char>, b: Seq<char>)
    requires
        p.len() == 0 || p.last() == '/',
        b.len() > 0,
        !b.contains('/'),
        b != seq!['.'],
        b != seq!['.', '.'],
    ensures
        file_name(p + b) == Some(b),
{
    let s = p + b;
    lemma_segment_after(p, b, b.len() as int);
    assert(s.subrange(p.len() as int, s.len() as int) =~= b);
}

/// The file name of a path joined to a directory is the name joined.
proof fn lemma_file_name_of_joined(dir: Seq<char>, b: Seq<char>)
    requires
        b.len() > 0,
        !b.contains('/'),
        b != seq!['.'],
        b != seq!['.', '.'],
    ensures
        file_name(joined(dir, b)) == Some(b),
{
    if b[0] == '/' {
        assert(b.contains('/'));
    }
    if dir.len() > 0 && dir.last() != '/' {
        let p = dir + seq!['/'];
        assert(p.last() == '/');
        assert(joined(dir, b) =~= p + b);
        lemma_file_name_after_dir(p, b);
    } else {
        lemma_file_name_after_dir(dir, b);
    }
}

/// An AppImage moved into the install directory keeps its file name, when
/// it has one.
pub proof fn law_moved_appimage_keeps_its_name(
    parent: Option<Seq<char>>,
    path: Seq<char>,
    install_dir: Seq<char>,
)
    requires
        file_name(path) is Some,
    ensures
        move_target(parent, path, install_dir) matches Some(dest) ==> base_name(dest) == base_name(
            path,
        ),
{
    lemma_file_name_shape(path);
    let b = base_name(path);
    let p = install_dir + seq!['/'];
    assert(p.last() == '/');
    assert(install_dir + seq!['/'] + b =~= p + b);
    lemma_file_name_after_dir(p, b);
}

/// An icon copied into a directory keeps its file name, when it has one.
pub proof fn law_copied_icon_keeps_its_name(src_file: Seq<char>, dst_dir: Seq<char>)
    requires
        file_name(src_file) is Some,
    ensures
        base_name(icon_copy_path(src_file, dst_dir)) == base_name(src_file),
{
    lemma_file_name_shape(src_file);
    lemma_file_name_of_joined(dst_dir, base_name(src_file));
}

/// The path a desktop file is written to is found again when desktop
/// entries are listed: its extension is `desktop`. This holds when the
/// file's name does not end with `/`.
pub proof fn law_written_entry_is_listed(apps_dir: Seq<char>, content: Seq<char>)
    requires
        ({
            let name = field_of(content, seq!['N', 'a', 'm', 'e']);
            name.len() > 0 ==> name.last() != '/'
        }),
    ensures
        entry_file_path(apps_dir, content) matches Some(p) ==> extension(p) == Some(
            desktop_extension(),
        ),
{
    let name = field_of(content, seq!['N', 'a', 'm', 'e']);
    if name.len() > 0 {
        let u = underscored(name);
        let s = apps_dir + seq!['/'] + u + desktop_suffix();
        let n = s.len() as int;
        assert(u.last() != '/') by {
            assert(u[u.len() - 1] == (if name.last() == ' ' { '_' } else { name.last() }));
        }
        assert(s[n - 9] == u.last());
        assert(forall|j: int| n - 8 <= j < n ==> s[j] == desktop_suffix()[j - (n - 8)]);
        lemma_segment_start(s, n);
        let st = segment_start(s, n);
        assert(st <= n - 9) by {
            if st > n - 9 {
                assert(s[st - 1] == '/');
            }
        }
        let f = s.subrange(st, n);
        assert(f.len() >= 9);
        assert(f != seq!['.']);
        assert(last_component(s, n) == Some(f));
        assert(f != seq!['.', '.']);
        assert(file_name(s) == Some(f));
        let k = f.len() - 8;
        assert(f[k] == '.');
        assert forall|j: int| k < j < f.len() implies f[j] != '.' by {
            assert(f[j] == s[st + j]);
        }
        lemma_last_dot(f, k, f.len() as int);
        assert(f.skip(k + 1) =~= desktop_extension());
    }
}

/// The last `.` of `f` is at `k` when `f[k]` is one and none follows.
proof fn lemma_last_dot(f: Seq<char>, k: int, end: int)
    requires
        0 <= k < end <= f.len(),
        f[k] == '.',
        forall|j: int| k < j < f.len() ==> f[j] != '.',
    ensures
        last_dot_before(f, end) == k,
    decreases end,
{
    if end - 1 > k {
        lemma_last_dot(f, k, end - 1);
    }
}

/// No two of `entries` are for the same file.
pub open spec fn distinct_paths(entries: Seq<AppImageEntry>) -> bool {
    forall|i: int, j: int|
        0 <= i < j < entries.len() ==> #[trigger] entries[i].path@ != #[trigger] entries[j].path@
}

/// Merging the AppImages found in a second directory keeps the list found
/// first, in order, at the front; lists every AppImage found; and lists no
/// file twice when the first list did not.
pub proof fn law_merging_entries(entries: Seq<AppImageEntry>, extra: Seq<AppImageEntry>)
    ensures
        merged(entries, extra).len() >= entries.len(),
        merged(entries, extra).take(entries.len() as int) == entries,
        forall|i: int| 0 <= i < extra.len() ==> lists_path(merged(entries, extra), #[trigger] extra[i].path@),
        distinct_paths(entries) ==> distinct_paths(merged(entries, extra)),
    decreases extra.len(),
{
    if extra.len() > 0 {
        let x = extra[0];
        let next = if lists_path(entries, x.path@) {
            entries
        } else {
            entries.push(x)
        };
        let rest = extra.drop_first();
        law_merging_entries(next, rest);
        let m = merged(next, rest);
        assert(m == merged(entries, extra));
        assert(m.take(entries.len() as int) =~= entries) by {
            assert(m.take(next.len() as int) == next);
            assert forall|i: int| 0 <= i < entries.len() implies m[i] == entries[i] by {
                assert(m.take(next.len() as int)[i] == next[i]);
            }
        }
        assert(lists_path(m, x.path@)) by {
            if lists_path(entries, x.path@) {
                let i = choose|i: int| 0 <= i < entries.len() && #[trigger] entries[i].path@ == x.path@;
                assert(m.take(next.len() as int)[i] == next[i]);
            } else {
                let i = entries.len() as int;
                assert(m.take(next.len() as int)[i] == next[i]);
                assert(m[i].path@ == x.path@);
            }
        }
        assert forall|i: int| 0 <= i < extra.len() implies lists_path(m, #[trigger] extra[i].path@) by {
            if i > 0 {
                assert(extra[i] == rest[i - 1]);
            }
        }
        if distinct_paths(entries) {
            assert(distinct_paths(next)) by {
                if !lists_path(entries, x.path@) {
                    assert forall|i: int, j: int|
                        0 <= i < j < next.len() implies #[trigger] next[i].path@ != #[trigger] next[j].path@ by {
                        if j == entries.len() {
                            assert(next[j] == x);
                            assert(next[i] == entries[i]);
                        } else {
                            assert(next[i] == entries[i]);
                            assert(next[j] == entries[j]);
                        }
                    }
                }
            }
        }
    } else {
        assert(entries.take(entries.len() as int) =~= entries);
    }
}

/// Within a prefix, segments start where they start in the prefix alone.
proof fn lemma_segment_start_prefix(p: Seq<char>, q: Seq<char>, k: int)
    requires
        0 <= k <= p.len(),
    ensures
        segment_start(p + q, k) == segment_start(p, k),
    decreases k,
{
    if k > 0 {
        assert((p + q)[k - 1] == p[k - 1]);
        lemma_segment_start_prefix(p, q, k - 1);
    }
}

/// A directory that ends in neither `/` nor a `/.` segment: its text is
/// its own parent part once a file name is put after it.
pub open spec fn plain_dir(d: Seq<char>) -> bool {
    &&& d.len() > 0
    &&& d.last() != '/'
    &&& !(d.len() >= 2 && d[d.len() - 1] == '.' && d[d.len() - 2] == '/')
}

/// The parent part of `dir/name` is `dir` when `dir` is a plain directory
/// and `name` a file name.
pub proof fn lemma_parent_of_file_in_dir(d: Seq<char>, name: Seq<char>)
    requires
        plain_dir(d),
        name.len() > 0,
        !name.contains('/'),
        name != seq!['.'],
    ensures
        parent_path(d + seq!['/'] + name) == Some(d),
{
    let p = d + seq!['/'];
    let s = p + name;
    assert(d + seq!['/'] + name =~= s);
    let n = s.len() as int;
    let dl = d.len() as int;
    let b = body_start(s);
    assert(s[dl] == '/');
    assert(s[0] == d[0]);
    assert(b <= 1);
    assert(b == 1 ==> dl >= 1);
    lemma_segment_after(p, name, name.len() as int);
    assert(segment_start(s, n) == dl + 1);
    assert(segment_from(s, b, n) =~= name);
    assert(skip_empty_back(s, b, n) == n);
    assert(before_segment(s, b, n) == dl);
    if dl <= b {
        assert(skip_empty_back(s, b, dl) == dl);
    } else {
        lemma_segment_start_prefix(d, seq!['/'] + name, dl);
        assert(p + name =~= d + (seq!['/'] + name));
        lemma_segment_start(d, dl);
        let st = segment_start(d, dl);
        assert(s[dl - 1] == d.last());
        assert(st < dl) by {
            if st == dl {
                assert(d[dl - 1] == '/');
            }
        }
        let seg = segment_from(s, b, dl);
        assert(seg.len() > 0);
        assert(seg != seq!['.']) by {
            if seg == seq!['.'] {
                assert(seg[0] == '.');
                let start = if st >= b { st } else { b };
                assert(start == dl - 1);
                assert(s[dl - 1] == '.');
                if start == st && st > 0 {
                    assert(d[st - 1] == '/');
                    assert(s[dl - 2] == d[dl - 2]);
                } else if st == 0 {
                    assert(dl == 1);
                    assert(s[0] == '.');
                    assert(s[1] == '/');
                    assert(b == 1);
                } else {
                    assert(b == 1 && st < b);
                }
            }
        }
        assert(skip_empty_back(s, b, dl) == dl);
    }
    assert(s.subrange(0, dl) =~= d);
}

/// An AppImage that already lies in the install directory is not moved,
/// when that directory is written without a trailing `/` or `/.` and the
/// AppImage has a file name.
pub proof fn law_appimage_in_install_dir_stays(install_dir: Seq<char>, name: Seq<char>)
    requires
        plain_dir(install_dir),
        file_name(name) == Some(name),
    ensures
        move_target(
            parent_path(install_dir + seq!['/'] + name),
            install_dir + seq!['/'] + name,
            install_dir,
        ) is None,
{
    lemma_file_name_shape(name);
    lemma_parent_of_file_in_dir(install_dir, name);
}

/// An AppImage counts as integrated exactly when some entry, wherever it
/// stands in the list, launches a program with the AppImage's file name.
pub proof fn law_referenced_by_any_entry(entries: Seq<DesktopEntry>, app: Seq<char>)
    ensures
        referenced_by(entries, app) <==> exists|i: int|
            0 <= i < entries.len() && base_name(exec_program(#[trigger] entries[i].exec_line@))
                == base_name(app),
        forall|i: int|
            0 <= i < entries.len() && base_name(exec_program(#[trigger] entries[i].exec_line@))
                == base_name(app) ==> referenced_by(entries, app),
{
}

/// An AppImage is moved exactly when the directory it lies in differs from
/// the install directory, and then it goes straight into the install
/// directory under its own file name.
pub proof fn law_moved_exactly_when_outside_install_dir(
    parent: Option<Seq<char>>,
    path: Seq<char>,
    install_dir: Seq<char>,
)
    ensures
        move_target(parent, path, install_dir) is None <==> dir_or_empty(parent) == install_dir,
        dir_or_empty(parent) != install_dir ==> move_target(parent, path, install_dir) == Some(
            install_dir + seq!['/'] + base_name(path),
        ),
{
}

/// With `XDG_DATA_HOME` unset or empty, the data directory is
/// `$HOME/.local/share`; otherwise it is `XDG_DATA_HOME`. The install
/// directory falls back to `$HOME/Applications` the same way.
pub proof fn law_directories_fall_back_to_home(var: Option<Seq<char>>, home: Seq<char>)
    ensures
        (var is None || var == Some(Seq::<char>::empty())) ==> data_home(var, home) == home
            + "/.local/share"@,
        (var is None || var == Some(Seq::<char>::empty())) ==> install_dir(var, home) == home
            + "/Applications"@,
        var matches Some(v) ==> (v.len() > 0 ==> data_home(var, home) == v && install_dir(var, home)
            == v),
{
}

/// An existing file counts as executable exactly when one of its execute
/// bits is set.
pub proof fn law_execute_bits_decide(path: Seq<char>, mode: u32, found_on_path: bool)
    ensures
        counts_as_executable(path, Some(mode), found_on_path) <==> mode & 0o111u32 != 0,
{
}

/// Write permissions do not change whether an existing file counts as
/// executable.
pub proof fn law_write_bits_do_not_matter(path: Seq<char>, mode: u32, found_on_path: bool)
    ensures
        counts_as_executable(path, Some(mode), found_on_path) == counts_as_executable(
            path,
            Some(mode | 0o022u32),
            found_on_path,
        ),
        counts_as_executable(path, Some(mode), found_on_path) == counts_as_executable(
            path,
            Some(mode & !0o022u32),
            found_on_path,
        ),
{
    assert((mode | 0o022u32) & 0o111u32 == mode & 0o111u32) by (bit_vector);
    assert((mode & !0o022u32) & 0o111u32 == mode & 0o111u32) by (bit_vector);
}

} // verus!
