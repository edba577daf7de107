//! Desktop entry files: reading fields, pointing an entry at an AppImage,
//! and reading the program an `Exec=` line launches.

use vstd::prelude::*;
use crate::appimage::{counts_as_executable, is_executable};
use crate::path::{app_base_name, base_name};
use crate::text::{
    chars_of, has_prefix, lines, lines_from, push_all, push_char, push_range, scan_line, string_from,
};

verus! {

/// `key` followed by `=`: how a line that sets `key` begins.
pub open spec fn key_prefix(key: Seq<char>) -> Seq<char> {
    key.push('=')
}

/// The value of the first of `ls` that begins with `prefix` (the text after
/// the prefix), or the empty text when none does.
pub open spec fn first_value(ls: Seq<Seq<char>>, prefix: Seq<char>) -> Seq<char>
    decreases ls.len(),
{
    if ls.len() == 0 {
        seq![]
    } else if prefix.is_prefix_of(ls[0]) {
        ls[0].skip(prefix.len() as int)
    } else {
        first_value(ls.drop_first(), prefix)
    }
}

/// The value of field `key` in a desktop file: taken from its first line
/// that begins with `key=`, or empty.
pub open spec fn field_of(content: Seq<char>, key: Seq<char>) -> Seq<char> {
    first_value(lines(content), key_prefix(key))
}

/// Returns the value of the first line of `content` that begins with
/// `key=`, or an empty string when no line does.
pub fn desktop_field(content: &str, key: &str) -> (r: String)
    ensures
        r@ == field_of(content@, key@),
{
    let text = chars_of(content);
    let mut prefix = chars_of(key);
    prefix.push('=');
    let n = text.len();
    let mut from: usize = 0;
    while from < n
        invariant
            text@ == content@,
            n == text@.len(),
            prefix@ == key_prefix(key@),
            field_of(content@, key@) == first_value(lines_from(text@, from as int), prefix@),
        decreases n - from,
    {
        let (e, le) = scan_line(&text, from);
        let ghost line = text@.subrange(from as int, le as int);
        let ghost rest = lines_from(text@, e + 1);
        assert((seq![line] + rest)[0] == line);
        assert((seq![line] + rest).drop_first() =~= rest);
        if has_prefix(&text, from, le, &prefix) {
            assert(line.skip(prefix@.len() as int) =~= text@.subrange(
                from + prefix@.len(),
                le as int,
            ));
            return string_from(&text, from + prefix.len(), le);
        }
        if e >= n {
            assert(rest =~= Seq::<Seq<char>>::empty());
            assert(first_value(seq![line] + rest, prefix@) == first_value(rest, prefix@));
            assert(first_value(rest, prefix@) =~= Seq::<char>::empty());
            return String::new();
        }
        from = e + 1;
    }
    String::new()
}

/// `Exec=`
pub open spec fn exec_prefix() -> Seq<char> {
    seq!['E', 'x', 'e', 'c', '=']
}

/// `TryExec=`
pub open spec fn try_exec_prefix() -> Seq<char> {
    seq!['T', 'r', 'y', 'E', 'x', 'e', 'c', '=']
}

/// `Icon=`
pub open spec fn icon_prefix() -> Seq<char> {
    seq!['I', 'c', 'o', 'n', '=']
}

/// `Name=`
pub open spec fn name_prefix() -> Seq<char> {
    seq!['N', 'a', 'm', 'e', '=']
}

/// `AppRun`, the launcher that an AppImage's own desktop file names.
pub open spec fn app_run() -> Seq<char> {
    seq!['A', 'p', 'p', 'R', 'u', 'n']
}

/// ` %U`, the placeholder for the files handed to the program.
pub open spec fn files_placeholder() -> Seq<char> {
    seq![' ', '%', 'U']
}

/// `s` between double quotes.
pub open spec fn quoted(s: Seq<char>) -> Seq<char> {
    seq!['"'] + s + seq!['"']
}

/// The new value of an `Exec=` line whose old value is `val`: a leading
/// `AppRun` is replaced by the quoted AppImage path, and any other command is
/// replaced whole by the quoted path followed by ` %U`.
pub open spec fn exec_value_for(val: Seq<char>, app: Seq<char>) -> Seq<char> {
    if app_run().is_prefix_of(val) {
        quoted(app) + val.skip(6)
    } else {
        quoted(app) + files_placeholder()
    }
}

/// What becomes of one line when the file is pointed at the AppImage `app`
/// with the icon `icon`; `None` when the line is dropped.
pub open spec fn rewrite_line(line: Seq<char>, app: Seq<char>, icon: Seq<char>) -> Option<
    Seq<char>,
> {
    if exec_prefix().is_prefix_of(line) {
        Some(exec_prefix() + exec_value_for(line.skip(5), app))
    } else if try_exec_prefix().is_prefix_of(line) {
        None
    } else if icon_prefix().is_prefix_of(line) && icon.len() > 0 {
        Some(icon_prefix() + icon)
    } else {
        Some(line)
    }
}

/// The lines that remain of `ls`, each rewritten.
pub open spec fn rewrite_lines(ls: Seq<Seq<char>>, app: Seq<char>, icon: Seq<char>) -> Seq<
    Seq<char>,
>
    decreases ls.len(),
{
    if ls.len() == 0 {
        seq![]
    } else {
        let rest = rewrite_lines(ls.drop_first(), app, icon);
        match rewrite_line(ls[0], app, icon) {
            Some(l) => seq![l] + rest,
            None => rest,
        }
    }
}

/// The lines `ls`, each followed by a newline.
pub open spec fn join_lines(ls: Seq<Seq<char>>) -> Seq<char>
    decreases ls.len(),
{
    if ls.len() == 0 {
        seq![]
    } else {
        ls[0] + seq!['\n'] + join_lines(ls.drop_first())
    }
}

/// A desktop file pointed at the AppImage `app`, with the icon `icon` when
/// that is not empty.
pub open spec fn modified_content(content: Seq<char>, app: Seq<char>, icon: Seq<char>) -> Seq<
    char,
> {
    join_lines(rewrite_lines(lines(content), app, icon))
}

/// The text a rewritten line contributes: the line and a newline, or
/// nothing when the line is dropped.
pub open spec fn rendered_line(line: Seq<char>, app: Seq<char>, icon: Seq<char>) -> Seq<char> {
    match rewrite_line(line, app, icon) {
        Some(l) => l + seq!['\n'],
        None => seq![],
    }
}

/// Rewriting and joining a list of lines goes line by line.
proof fn lemma_join_rewrite_cons(
    line: Seq<char>,
    rest: Seq<Seq<char>>,
    app: Seq<char>,
    icon: Seq<char>,
)
    ensures
        join_lines(rewrite_lines(seq![line] + rest, app, icon)) == rendered_line(line, app, icon)
            + join_lines(rewrite_lines(rest, app, icon)),
{
    let ls = seq![line] + rest;
    assert(ls[0] == line);
    assert(ls.drop_first() =~= rest);
    let rest_out = rewrite_lines(rest, app, icon);
    match rewrite_line(line, app, icon) {
        Some(l) => {
            assert((seq![l] + rest_out)[0] == l);
            assert((seq![l] + rest_out).drop_first() =~= rest_out);
            assert(join_lines(seq![l] + rest_out) =~= l + seq!['\n'] + join_lines(rest_out));
        },
        None => {
            assert(rendered_line(line, app, icon) =~= Seq::<char>::empty());
            assert(join_lines(rest_out) =~= Seq::<char>::empty() + join_lines(rest_out));
        },
    }
}

/// Appends to `out` what the line `text[from..to]` becomes.
fn emit_rewritten_line(
    out: &mut String,
    text: &Vec<char>,
    from: usize,
    to: usize,
    app: &Vec<char>,
    icon: &Vec<char>,
)
    requires
        from <= to <= text@.len(),
    ensures
        final(out)@ == old(out)@ + rendered_line(text@.subrange(from as int, to as int), app@, icon@),
{
    let exec_key: Vec<char> = vec!['E', 'x', 'e', 'c', '='];
    let try_exec_key: Vec<char> = vec!['T', 'r', 'y', 'E', 'x', 'e', 'c', '='];
    let icon_key: Vec<char> = vec!['I', 'c', 'o', 'n', '='];
    let app_run_word: Vec<char> = vec!['A', 'p', 'p', 'R', 'u', 'n'];
    let placeholder: Vec<char> = vec![' ', '%', 'U'];
    assert(exec_key@ =~= exec_prefix());
    assert(try_exec_key@ =~= try_exec_prefix());
    assert(icon_key@ =~= icon_prefix());
    assert(app_run_word@ =~= app_run());
    assert(placeholder@ =~= files_placeholder());
    let ghost line = text@.subrange(from as int, to as int);
    let ghost out0 = out@;
    if has_prefix(text, from, to, &exec_key) {
        let ghost val = line.skip(5);
        assert(val =~= text@.subrange(from + 5, to as int));
        push_all(out, &exec_key);
        push_char(out, '"');
        push_all(out, app);
        push_char(out, '"');
        if has_prefix(text, from + 5, to, &app_run_word) {
            push_range(out, text, from + 11, to);
            assert(val.skip(6) =~= text@.subrange(from + 11, to as int));
        } else {
            push_all(out, &placeholder);
        }
        push_char(out, '\n');
        assert(out@ =~= out0 + (exec_prefix() + exec_value_for(val, app@)) + seq!['\n']);
    } else if has_prefix(text, from, to, &try_exec_key) {
        assert(out@ =~= out0 + rendered_line(line, app@, icon@));
    } else if has_prefix(text, from, to, &icon_key) && icon.len() > 0 {
        push_all(out, &icon_key);
        push_all(out, icon);
        push_char(out, '\n');
        assert(out@ =~= out0 + (icon_prefix() + icon@) + seq!['\n']);
    } else {
        push_range(out, text, from, to);
        push_char(out, '\n');
        assert(out@ =~= out0 + line + seq!['\n']);
    }
}

/// Rewrites a desktop file so that it launches the AppImage at
/// `app_image_path`: `Exec=` lines run the AppImage, `TryExec=` lines are
/// dropped, `Icon=` lines name `icon_path` unless that is empty, and every
/// line ends with a newline.
pub fn modify_desktop_content(desktop_content: &str, app_image_path: &str, icon_path: &str) -> (r:
    String)
    ensures
        r@ == modified_content(desktop_content@, app_image_path@, icon_path@),
{
    let text = chars_of(desktop_content);
    let app = chars_of(app_image_path);
    let icon = chars_of(icon_path);
    let ghost target = modified_content(desktop_content@, app_image_path@, icon_path@);
    let mut out = String::new();
    let n = text.len();
    let mut from: usize = 0;
    while from < n
        invariant
            text@ == desktop_content@,
            app@ == app_image_path@,
            icon@ == icon_path@,
            n == text@.len(),
            target == modified_content(desktop_content@, app_image_path@, icon_path@),
            target == out@ + join_lines(
                rewrite_lines(lines_from(text@, from as int), app@, icon@),
            ),
        decreases n - from,
    {
        let (e, le) = scan_line(&text, from);
        let ghost line = text@.subrange(from as int, le as int);
        let ghost rest = lines_from(text@, e + 1);
        let ghost out0 = out@;
        proof {
            lemma_join_rewrite_cons(line, rest, app@, icon@);
        }
        emit_rewritten_line(&mut out, &text, from, le, &app, &icon);
        assert(target == out@ + join_lines(rewrite_lines(rest, app@, icon@)));
        if e >= n {
            assert(rest =~= Seq::<Seq<char>>::empty());
            assert(rewrite_lines(rest, app@, icon@) =~= Seq::<Seq<char>>::empty());
            assert(join_lines(rewrite_lines(rest, app@, icon@)) =~= Seq::<char>::empty());
            assert(out@ =~= target);
            return out;
        }
        from = e + 1;
    }
    assert(join_lines(rewrite_lines(lines_from(text@, from as int), app@, icon@))
        =~= Seq::<char>::empty());
    assert(out@ =~= target);
    out
}

/// Whether position `i` of an `Exec=` value lies inside double quotes: an
/// odd number of `"` comes before it.
pub open spec fn quoted_at(s: Seq<char>, i: int) -> bool
    decreases i,
{
    if i <= 0 {
        false
    } else {
        quoted_at(s, i - 1) != (s[i - 1] == '"')
    }
}

/// Whether the character at `i` separates words: a space outside quotes.
pub open spec fn separates_at(s: Seq<char>, i: int) -> bool {
    s[i] == ' ' && !quoted_at(s, i)
}

/// The characters of `s[0..n]` that belong to words: all but the quotes
/// and the separating spaces.
pub open spec fn word_chars(s: Seq<char>, n: int) -> Seq<char>
    decreases n,
{
    if n <= 0 {
        seq![]
    } else {
        let prev = word_chars(s, n - 1);
        if s[n - 1] == '"' || separates_at(s, n - 1) {
            prev
        } else {
            prev.push(s[n - 1])
        }
    }
}

/// Whether the first word of `s` ends at `i`: a separating space that
/// follows at least one word character.
pub open spec fn first_word_ends_at(s: Seq<char>, i: int) -> bool {
    separates_at(s, i) && word_chars(s, i).len() > 0
}

/// The first index at or after `i` where the first word of `s` ends, or the
/// length of `s`.
pub open spec fn first_word_end_from(s: Seq<char>, i: int) -> int
    decreases s.len() - i,
{
    if i < 0 || i >= s.len() {
        s.len() as int
    } else if first_word_ends_at(s, i) {
        i
    } else {
        first_word_end_from(s, i + 1)
    }
}

/// The program an `Exec=` value launches: its first word, where double
/// quotes group spaces into a word and are themselves left out.
pub open spec fn exec_program(s: Seq<char>) -> Seq<char> {
    word_chars(s, first_word_end_from(s, 0))
}

/// Returns the program that the `Exec=` value `exec_line` launches: its
/// first space-separated word, with double quotes removed and spaces inside
/// them kept.
pub fn exec_line_to_path(exec_line: &str) -> (r: String)
    ensures
        r@ == exec_program(exec_line@),
{
    let s = chars_of(exec_line);
    let n = s.len();
    let mut result = String::new();
    let mut in_quote = false;
    let mut kept: usize = 0;
    let mut i: usize = 0;
    while i < n
        invariant
            s@ == exec_line@,
            n == s@.len(),
            0 <= i <= n,
            result@ == word_chars(s@, i as int),
            in_quote == quoted_at(s@, i as int),
            kept == result@.len() <= i,
            first_word_end_from(s@, 0) == first_word_end_from(s@, i as int),
        decreases n - i,
    {
        let ch = s[i];
        if ch == '"' {
            in_quote = !in_quote;
            i += 1;
            continue;
        }
        if ch == ' ' && !in_quote {
            if kept > 0 {
                assert(first_word_ends_at(s@, i as int));
                return result;
            }
            i += 1;
            continue;
        }
        push_char(&mut result, ch);
        kept += 1;
        i += 1;
    }
    result
}

/// A desktop entry file found on disk: where it lies, and the name,
/// command and icon it sets.
#[derive(Debug)]
pub struct DesktopEntry {
    pub path: String,
    pub name: String,
    pub exec_line: String,
    pub icon: String,
}

/// The value of the last of `ls` that begins with `prefix`, or the empty
/// text when none does.
pub open spec fn last_value(ls: Seq<Seq<char>>, prefix: Seq<char>) -> Seq<char>
    decreases ls.len(),
{
    if ls.len() == 0 {
        seq![]
    } else if prefix.is_prefix_of(ls.last()) {
        ls.last().skip(prefix.len() as int)
    } else {
        last_value(ls.drop_last(), prefix)
    }
}

/// Adding one line to what has been read sets a field from it when the line
/// begins with that field's prefix, and keeps the field otherwise.
proof fn lemma_last_value_push(done: Seq<Seq<char>>, line: Seq<char>, prefix: Seq<char>)
    ensures
        last_value(done.push(line), prefix) == if prefix.is_prefix_of(line) {
            line.skip(prefix.len() as int)
        } else {
            last_value(done, prefix)
        },
{
    assert(done.push(line).last() == line);
    assert(done.push(line).drop_last() =~= done);
}

/// Reads the desktop entry at `path` whose text is `content`: each of
/// `Name=`, `Exec=` and `Icon=` is taken from the last line that sets it,
/// and is empty when no line does.
pub fn parse_desktop_entry(path: &str, content: &str) -> (e: DesktopEntry)
    ensures
        e.path@ == path@,
        e.name@ == last_value(lines(content@), name_prefix()),
        e.exec_line@ == last_value(lines(content@), exec_prefix()),
        e.icon@ == last_value(lines(content@), icon_prefix()),
{
    let text = chars_of(content);
    let name_key: Vec<char> = vec!['N', 'a', 'm', 'e', '='];
    let exec_key: Vec<char> = vec!['E', 'x', 'e', 'c', '='];
    let icon_key: Vec<char> = vec!['I', 'c', 'o', 'n', '='];
    assert(name_key@ =~= name_prefix());
    assert(exec_key@ =~= exec_prefix());
    assert(icon_key@ =~= icon_prefix());
    let path_chars = chars_of(path);
    let mut entry = DesktopEntry {
        path: string_from(&path_chars, 0, path_chars.len()),
        name: String::new(),
        exec_line: String::new(),
        icon: String::new(),
    };
    let n = text.len();
    let mut from: usize = 0;
    let ghost mut done: Seq<Seq<char>> = seq![];
    assert(done + lines_from(text@, 0) =~= lines(content@));
    while from < n
        invariant
            text@ == content@,
            n == text@.len(),
            name_key@ == name_prefix(),
            exec_key@ == exec_prefix(),
            icon_key@ == icon_prefix(),
            entry.path@ == path@,
            lines(content@) == done + lines_from(text@, from as int),
            entry.name@ == last_value(done, name_prefix()),
            entry.exec_line@ == last_value(done, exec_prefix()),
            entry.icon@ == last_value(done, icon_prefix()),
        decreases n - from,
    {
        let (e, le) = scan_line(&text, from);
        let ghost line = text@.subrange(from as int, le as int);
        let ghost rest = lines_from(text@, e + 1);
        proof {
            assert(done + (seq![line] + rest) =~= done.push(line) + rest);
            lemma_last_value_push(done, line, name_prefix());
            lemma_last_value_push(done, line, exec_prefix());
            lemma_last_value_push(done, line, icon_prefix());
        }
        let is_name = has_prefix(&text, from, le, &name_key);
        let is_exec = has_prefix(&text, from, le, &exec_key);
        let is_icon = has_prefix(&text, from, le, &icon_key);
        proof {
            if is_name {
                assert(line[0] == 'N');
            }
            if is_exec {
                assert(line[0] == 'E');
            }
            if is_icon {
                assert(line[0] == 'I');
            }
        }
        if is_name {
            entry.name = string_from(&text, from + 5, le);
            assert(line.skip(5) =~= entry.name@);
        } else if is_exec {
            entry.exec_line = string_from(&text, from + 5, le);
            assert(line.skip(5) =~= entry.exec_line@);
        } else if is_icon {
            entry.icon = string_from(&text, from + 5, le);
            assert(line.skip(5) =~= entry.icon@);
        }
        proof {
            done = done.push(line);
        }
        if e >= n {
            assert(rest =~= Seq::<Seq<char>>::empty());
            assert(lines(content@) =~= done);
            return entry;
        }
        from = e + 1;
    }
    assert(lines(content@) =~= done);
    entry
}

/// Whether the command `exec` launches a file with the same name as the
/// AppImage `app`.
pub open spec fn launches_file_named_like(exec: Seq<char>, app: Seq<char>) -> bool {
    base_name(exec_program(exec)) == base_name(app)
}

/// Whether some entry of `entries` launches a file named like the AppImage
/// `app`.
pub open spec fn referenced_by(entries: Seq<DesktopEntry>, app: Seq<char>) -> bool {
    exists|i: int| 0 <= i < entries.len() && launches_file_named_like(entries[i].exec_line@, app)
}

/// Whether one of the desktop `entries` already launches the AppImage at
/// `app_image_path`, judged by file name.
pub fn is_appimage_referenced(app_image_path: &str, entries: &Vec<DesktopEntry>) -> (r: bool)
    ensures
        r == referenced_by(entries@, app_image_path@),
        r <==> exists|i: int|
            0 <= i < entries@.len() && base_name(exec_program(#[trigger] entries@[i].exec_line@))
                == base_name(app_image_path@),
{
    let app_file_name = app_base_name(app_image_path);
    let mut i: usize = 0;
    while i < entries.len()
        invariant
            app_file_name@ == base_name(app_image_path@),
            i <= entries@.len(),
            forall|j: int|
                0 <= j < i ==> !launches_file_named_like(#[trigger] entries@[j].exec_line@, app_image_path@),
        decreases entries@.len() - i,
    {
        let exec_path = exec_line_to_path(entries[i].exec_line.as_str());
        let exec_file_name = app_base_name(exec_path.as_str());
        if exec_file_name == app_file_name {
            assert(launches_file_named_like(entries@[i as int].exec_line@, app_image_path@));
            return true;
        }
        i += 1;
    }
    false
}

/// Whether `icon` is a file that the program itself placed in `icons_dir`,
/// and so goes with the entry that names it.
pub fn icon_belongs_to(icon: &str, icons_dir: &str) -> (r: bool)
    ensures
        r == (icon@.len() > 0 && icons_dir@.is_prefix_of(icon@)),
{
    let i = chars_of(icon);
    let d = chars_of(icons_dir);
    if i.len() == 0 {
        return false;
    }
    assert(i@.subrange(0, i@.len() as int) =~= i@);
    has_prefix(&i, 0, i.len(), &d)
}

/// The program an entry launches, when it names one: the file whose
/// existence decides whether the entry is stale.
pub fn program_to_check(entry: &DesktopEntry) -> (r: Option<String>)
    ensures
        match r {
            Some(p) => p@ == exec_program(entry.exec_line@) && p@.len() > 0,
            None => exec_program(entry.exec_line@).len() == 0,
        },
{
    let p = exec_line_to_path(entry.exec_line.as_str());
    if p.as_str().unicode_len() == 0 {
        None
    } else {
        Some(p)
    }
}

/// Whether an entry is stale: it names a program, and that program does not
/// count as executable, given the permission bits `mode` of the program's
/// file when it exists and whether the program was found on `PATH`.
pub fn is_stale(entry: &DesktopEntry, mode: Option<u32>, found_on_path: bool) -> (r: bool)
    ensures
        r == (exec_program(entry.exec_line@).len() > 0 && !counts_as_executable(
            exec_program(entry.exec_line@),
            mode,
            found_on_path,
        )),
        mode matches Some(m) ==> (r <==> (exec_program(entry.exec_line@).len() > 0 && m & 0o111u32
            == 0)),
        mode is None ==> (r <==> (exec_program(entry.exec_line@).len() > 0 && !(!exec_program(
            entry.exec_line@,
        ).contains('/') && found_on_path))),
{
    match program_to_check(entry) {
        Some(program) => !is_executable(program.as_str(), mode, found_on_path),
        None => false,
    }
}

/// `s` with every space turned into an underscore.
pub open spec fn underscored(s: Seq<char>) -> Seq<char> {
    s.map_values(|c: char| if c == ' ' { '_' } else { c })
}

/// `.desktop`
pub open spec fn desktop_suffix() -> Seq<char> {
    seq!['.', 'd', 'e', 's', 'k', 't', 'o', 'p']
}

/// Where the desktop file `content` is written in `apps_dir`: the file is
/// named after its `Name=` field with spaces turned into underscores; there
/// is no such place when the name is empty.
pub open spec fn entry_file_path(apps_dir: Seq<char>, content: Seq<char>) -> Option<Seq<char>> {
    let name = field_of(content, seq!['N', 'a', 'm', 'e']);
    if name.len() == 0 {
        None
    } else {
        Some(apps_dir + seq!['/'] + underscored(name) + desktop_suffix())
    }
}

/// Returns the path under `apps_dir` where the desktop file `content` is
/// written, or `None` when it has no `Name=` value.
pub fn desktop_entry_path(apps_dir: &str, content: &str) -> (r: Option<String>)
    ensures
        r.deep_view() == entry_file_path(apps_dir@, content@),
{
    let key: Vec<char> = vec!['N', 'a', 'm', 'e'];
    let key_str = string_from(&key, 0, 4);
    assert(key_str@ =~= seq!['N', 'a', 'm', 'e']);
    let name = chars_of(desktop_field(content, key_str.as_str()).as_str());
    if name.len() == 0 {
        return None;
    }
    let mut r = String::new();
    push_all(&mut r, &chars_of(apps_dir));
    push_char(&mut r, '/');
    let mut i: usize = 0;
    let ghost r0 = r@;
    while i < name.len()
        invariant
            i <= name@.len(),
            r@ == r0 + underscored(name@).take(i as int),
        decreases name@.len() - i,
    {
        let c = name[i];
        push_char(&mut r, if c == ' ' { '_' } else { c });
        i += 1;
        assert(underscored(name@).take(i as int) =~= underscored(name@).take(i - 1).push(
            underscored(name@)[i - 1],
        ));
    }
    assert(underscored(name@).take(name@.len() as int) =~= underscored(name@));
    let suffix: Vec<char> = vec!['.', 'd', 'e', 's', 'k', 't', 'o', 'p'];
    assert(suffix@ =~= desktop_suffix());
    push_all(&mut r, &suffix);
    Some(r)
}

} // verus!
