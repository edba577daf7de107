//! The command line and the decisions of the program's runs: what the
//! arguments ask for, which files are AppImages, whether an AppImage is moved
//! before it is installed, how a prompt is answered, and the list of
//! AppImages that is offered.

use vstd::prelude::*;
use crate::path::{app_base_name, base_name, parent_of, parent_path};
use crate::text::{chars_equal, chars_of, has_prefix, push_all, push_char, trim, trimmed};

verus! {

/// How a run that installs and cleans up is set up.
#[derive(Debug)]
pub struct RunOptions {
    /// Answer yes to every prompt.
    pub auto_yes: bool,
    /// Run in the terminal rather than with dialogs.
    pub cli_mode: bool,
    /// The directory or AppImage given, or empty when none was.
    pub dir_path: String,
}

/// What the command line asks for.
#[derive(Debug)]
pub enum Command {
    ShowVersion,
    ShowHelp,
    Run(RunOptions),
}

/// `-v` or `--version`
pub open spec fn is_version_flag(a: Seq<char>) -> bool {
    a == seq!['-', 'v'] || a == seq!['-', '-', 'v', 'e', 'r', 's', 'i', 'o', 'n']
}

/// `-h` or `--help`
pub open spec fn is_help_flag(a: Seq<char>) -> bool {
    a == seq!['-', 'h'] || a == seq!['-', '-', 'h', 'e', 'l', 'p']
}

/// `-y`
pub open spec fn yes_flag() -> Seq<char> {
    seq!['-', 'y']
}

/// `--cli`
pub open spec fn cli_flag() -> Seq<char> {
    seq!['-', '-', 'c', 'l', 'i']
}

/// The first argument that asks for the version or the help text.
pub open spec fn first_info_flag(args: Seq<Seq<char>>) -> Option<Seq<char>>
    decreases args.len(),
{
    if args.len() == 0 {
        None
    } else if is_version_flag(args[0]) || is_help_flag(args[0]) {
        Some(args[0])
    } else {
        first_info_flag(args.drop_first())
    }
}

/// Whether an argument names a path: it is not empty and does not start
/// with `-`.
pub open spec fn names_path(a: Seq<char>) -> bool {
    a.len() > 0 && a[0] != '-'
}

/// The first argument that names a path, or the empty text.
pub open spec fn path_argument(args: Seq<Seq<char>>) -> Seq<char>
    decreases args.len(),
{
    if args.len() == 0 {
        seq![]
    } else if names_path(args[0]) {
        args[0]
    } else {
        path_argument(args.drop_first())
    }
}

/// Whether `args[k]` is the first argument that is not empty and does not
/// start with `-`.
pub open spec fn first_path_at(args: Seq<Seq<char>>, k: int) -> bool {
    &&& 0 <= k < args.len()
    &&& args[k].len() > 0
    &&& args[k][0] != '-'
    &&& forall|j: int| 0 <= j < k ==> !(#[trigger] args[j].len() > 0 && args[j][0] != '-')
}

/// The path argument is the first argument that is not empty and does not
/// start with `-`, whatever it holds after its first character; when there
/// is none, it is empty.
pub proof fn law_path_argument_is_first_non_flag(args: Seq<Seq<char>>)
    ensures
        forall|k: int| first_path_at(args, k) ==> path_argument(args) == #[trigger] args[k],
        (forall|k: int| 0 <= k < args.len() ==> !(#[trigger] args[k].len() > 0 && args[k][0] != '-'))
            ==> path_argument(args).len() == 0,
    decreases args.len(),
{
    if args.len() > 0 {
        let rest = args.drop_first();
        law_path_argument_is_first_non_flag(rest);
        assert forall|k: int| first_path_at(args, k) implies path_argument(args) == #[trigger] args[k] by {
            if k > 0 {
                assert(!(args[0].len() > 0 && args[0][0] != '-'));
                assert(rest[k - 1] == args[k]);
                assert forall|j: int| 0 <= j < k - 1 implies !(#[trigger] rest[j].len() > 0 && rest[j][0] != '-') by {
                    assert(rest[j] == args[j + 1]);
                }
                assert(first_path_at(rest, k - 1));
            }
        }
        if forall|k: int| 0 <= k < args.len() ==> !(#[trigger] args[k].len() > 0 && args[k][0] != '-') {
            assert forall|k: int| 0 <= k < rest.len() implies !(#[trigger] rest[k].len() > 0 && rest[k][0] != '-') by {
                assert(rest[k] == args[k + 1]);
            }
            assert(!(args[0].len() > 0 && args[0][0] != '-'));
        }
    }
}

/// The arguments as texts.
pub open spec fn arg_texts(args: Seq<String>) -> Seq<Seq<char>> {
    args.map_values(|a: String| a@)
}

/// What `args` ask for: the version or the help text when one of their
/// flags comes first, else a run with the options they set.
pub open spec fn command_matches(c: Command, args: Seq<Seq<char>>) -> bool {
    match c {
        Command::ShowVersion => first_info_flag(args) matches Some(f) && is_version_flag(f),
        Command::ShowHelp => first_info_flag(args) matches Some(f) && is_help_flag(f),
        Command::Run(o) => {
            &&& first_info_flag(args) is None
            &&& o.auto_yes == args.contains(yes_flag())
            &&& o.cli_mode == args.contains(cli_flag())
            &&& o.dir_path@ == path_argument(args)
        },
    }
}

/// When none of the first `i` arguments is an information flag, the first
/// one is found among the rest.
proof fn lemma_first_info_flag_split(args: Seq<Seq<char>>, i: int)
    requires
        0 <= i <= args.len(),
        first_info_flag(args.take(i)) is None,
    ensures
        first_info_flag(args) == first_info_flag(args.skip(i)),
    decreases i,
{
    if i == 0 {
        assert(args.skip(0) =~= args);
    } else {
        let t = args.take(i);
        assert(t[0] == args[0]);
        assert(t.drop_first() =~= args.drop_first().take(i - 1));
        assert(args.drop_first().skip(i - 1) =~= args.skip(i));
        lemma_first_info_flag_split(args.drop_first(), i - 1);
    }
}

proof fn lemma_path_argument_step(args: Seq<Seq<char>>, i: int)
    requires
        0 <= i < args.len(),
    ensures
        path_argument(args.take(i + 1)) == if path_argument(args.take(i)).len() == 0 && names_path(
            args[i],
        ) {
            args[i]
        } else {
            path_argument(args.take(i))
        },
    decreases i,
{
    let t = args.take(i + 1);
    if i == 0 {
        assert(t.drop_first() =~= Seq::<Seq<char>>::empty());
        assert(args.take(0) =~= Seq::<Seq<char>>::empty());
    } else {
        assert(t.drop_first() =~= args.drop_first().take(i));
        assert(args.take(i).drop_first() =~= args.drop_first().take(i - 1));
        assert(t[0] == args[0]);
        assert(args.take(i)[0] == args[0]);
        lemma_path_argument_step(args.drop_first(), i - 1);
    }
}

/// Reads the command line `args` (without the program name).
pub fn parse_args(args: &Vec<String>) -> (c: Command)
    ensures
        command_matches(c, arg_texts(args@)),
        c matches Command::Run(o) ==> forall|k: int|
            0 <= k < args@.len() && first_path_at(arg_texts(args@), k) ==> o.dir_path@
                == #[trigger] args@[k]@,
        c matches Command::Run(o) ==> ((forall|k: int|
            0 <= k < args@.len() ==> !(#[trigger] args@[k]@.len() > 0 && args@[k]@[0] != '-'))
            ==> o.dir_path@.len() == 0),
{
    let ghost words = arg_texts(args@);
    let v_short: Vec<char> = vec!['-', 'v'];
    let v_long: Vec<char> = vec!['-', '-', 'v', 'e', 'r', 's', 'i', 'o', 'n'];
    let h_short: Vec<char> = vec!['-', 'h'];
    let h_long: Vec<char> = vec!['-', '-', 'h', 'e', 'l', 'p'];
    let yes: Vec<char> = vec!['-', 'y'];
    let cli: Vec<char> = vec!['-', '-', 'c', 'l', 'i'];
    assert(v_short@ =~= seq!['-', 'v']);
    assert(v_long@ =~= seq!['-', '-', 'v', 'e', 'r', 's', 'i', 'o', 'n']);
    assert(h_short@ =~= seq!['-', 'h']);
    assert(h_long@ =~= seq!['-', '-', 'h', 'e', 'l', 'p']);
    assert(yes@ =~= yes_flag());
    assert(cli@ =~= cli_flag());
    let mut auto_yes = false;
    let mut cli_mode = false;
    let mut dir_path: Vec<char> = Vec::new();
    let mut i: usize = 0;
    assert(words.take(0) =~= Seq::<Seq<char>>::empty());
    while i < args.len()
        invariant
            words == arg_texts(args@),
            words.len() == args@.len(),
            i <= args@.len(),
            v_short@ == seq!['-', 'v'],
            v_long@ == seq!['-', '-', 'v', 'e', 'r', 's', 'i', 'o', 'n'],
            h_short@ == seq!['-', 'h'],
            h_long@ == seq!['-', '-', 'h', 'e', 'l', 'p'],
            yes@ == yes_flag(),
            cli@ == cli_flag(),
            first_info_flag(words.take(i as int)) is None,
            auto_yes == words.take(i as int).contains(yes_flag()),
            cli_mode == words.take(i as int).contains(cli_flag()),
            dir_path@ == path_argument(words.take(i as int)),
        decreases args@.len() - i,
    {
        let a = chars_of(args[i].as_str());
        assert(a@ == words[i as int]);
        proof {
            lemma_first_info_flag_split(words, i as int);
            assert(words.skip(i as int)[0] == words[i as int]);
            assert(words.take(i + 1).skip(i as int) =~= seq![words[i as int]]);
            assert(seq![words[i as int]].drop_first() =~= Seq::<Seq<char>>::empty());
            assert(words.take(i + 1).take(i as int) =~= words.take(i as int));
            lemma_path_argument_step(words, i as int);
            assert(words.take(i + 1) =~= words.take(i as int).push(words[i as int]));
        }
        if chars_equal(&a, &v_short) || chars_equal(&a, &v_long) {
            proof {
                lemma_first_info_flag_split(words.take(i + 1), i as int);
            }
            return Command::ShowVersion;
        }
        if chars_equal(&a, &h_short) || chars_equal(&a, &h_long) {
            return Command::ShowHelp;
        }
        proof {
            let one = seq![words[i as int]];
            assert(one[0] == words[i as int]);
            assert(!is_version_flag(one[0]) && !is_help_flag(one[0]));
            assert(first_info_flag(one.drop_first()) is None);
            assert(first_info_flag(one) is None);
            lemma_first_info_flag_split(words.take(i + 1), i as int);
        }
        if chars_equal(&a, &yes) {
            auto_yes = true;
        } else if chars_equal(&a, &cli) {
            cli_mode = true;
        } else if a.len() > 0 && a[0] != '-' && dir_path.len() == 0 {
            dir_path = a;
        }
        proof {
            let t = words.take(i as int);
            let w = words[i as int];
            assert(t.push(w).contains(yes_flag()) == (t.contains(yes_flag()) || w == yes_flag()))
                by {
                if w == yes_flag() {
                    assert(t.push(w)[t.len() as int] == w);
                }
                if t.contains(yes_flag()) {
                    let k = choose|k: int| 0 <= k < t.len() && t[k] == yes_flag();
                    assert(t.push(w)[k] == t[k]);
                }
            }
            assert(t.push(w).contains(cli_flag()) == (t.contains(cli_flag()) || w == cli_flag()))
                by {
                if w == cli_flag() {
                    assert(t.push(w)[t.len() as int] == w);
                }
                if t.contains(cli_flag()) {
                    let k = choose|k: int| 0 <= k < t.len() && t[k] == cli_flag();
                    assert(t.push(w)[k] == t[k]);
                }
            }
            assert(yes_flag() != cli_flag()) by {
                assert(yes_flag().len() != cli_flag().len());
            }
            assert(w == yes_flag() ==> !names_path(w));
            assert(w == cli_flag() ==> !names_path(w));
        }
        i += 1;
    }
    assert(words.take(i as int) =~= words);
    proof {
        law_path_argument_is_first_non_flag(words);
        assert forall|k: int| 0 <= k < args@.len() implies #[trigger] args@[k]@ == words[k] by {}
    }
    let mut dir = String::new();
    push_all(&mut dir, &dir_path);
    Command::Run(RunOptions { auto_yes, cli_mode, dir_path: dir })
}

/// `.AppImage`
pub open spec fn appimage_suffix() -> Seq<char> {
    seq!['.', 'A', 'p', 'p', 'I', 'm', 'a', 'g', 'e']
}

/// Whether `path` names a single AppImage: it is a regular file (as
/// `is_file` tells) whose name ends in `.AppImage`.
pub fn is_single_app_image(path: &str, is_file: bool) -> (r: bool)
    ensures
        r == (is_file && appimage_suffix().is_suffix_of(path@)),
{
    if !is_file {
        return false;
    }
    let v = chars_of(path);
    let suffix: Vec<char> = vec!['.', 'A', 'p', 'p', 'I', 'm', 'a', 'g', 'e'];
    assert(suffix@ =~= appimage_suffix());
    if v.len() < 9 {
        return false;
    }
    let r = has_prefix(&v, v.len() - 9, v.len(), &suffix);
    assert(v@.subrange(v@.len() - 9, v@.len() as int).subrange(0, 9) =~= v@.subrange(
        v@.len() - 9,
        v@.len() as int,
    ));
    r
}

/// The directory `parent`, or the empty text when there is none.
pub open spec fn dir_or_empty(parent: Option<Seq<char>>) -> Seq<char> {
    match parent {
        Some(d) => d,
        None => seq![],
    }
}

/// Where an AppImage that lies in the directory `parent` (none when it has
/// none) is moved before it is installed: into `install_dir`, under its own
/// file name; nowhere when it already lies there.
pub open spec fn move_target(
    parent: Option<Seq<char>>,
    path: Seq<char>,
    install_dir: Seq<char>,
) -> Option<Seq<char>> {
    let dir = match parent {
        Some(d) => d,
        None => seq![],
    };
    if dir == install_dir {
        None
    } else {
        Some(install_dir + seq!['/'] + base_name(path))
    }
}

/// Returns where the AppImage at `app_image_path`, which lies in `parent`,
/// is moved to, or `None` when it already lies in `install_dir`.
pub fn move_destination_from(parent: Option<String>, app_image_path: &str, install_dir: &str) -> (r:
    Option<String>)
    ensures
        r.deep_view() == move_target(parent.deep_view(), app_image_path@, install_dir@),
        dir_or_empty(parent.deep_view()) == install_dir@ ==> r is None,
        dir_or_empty(parent.deep_view()) != install_dir@ ==> r.deep_view() == Some(
            install_dir@ + seq!['/'] + base_name(app_image_path@),
        ),
{
    let dir = match parent {
        Some(d) => chars_of(d.as_str()),
        None => Vec::new(),
    };
    let target = chars_of(install_dir);
    if chars_equal(&dir, &target) {
        return None;
    }
    let mut r = String::new();
    push_all(&mut r, &target);
    push_char(&mut r, '/');
    let name = chars_of(app_base_name(app_image_path).as_str());
    push_all(&mut r, &name);
    Some(r)
}

/// Returns where the AppImage at `app_image_path` is moved to before it is
/// installed, or `None` when it already lies in `install_dir`.
pub fn move_destination(app_image_path: &str, install_dir: &str) -> (r: Option<String>)
    ensures
        r.deep_view() == move_target(parent_path(app_image_path@), app_image_path@, install_dir@),
        dir_or_empty(parent_path(app_image_path@)) == install_dir@ ==> r is None,
        dir_or_empty(parent_path(app_image_path@)) != install_dir@ ==> r.deep_view() == Some(
            install_dir@ + seq!['/'] + base_name(app_image_path@),
        ),
{
    let parent = parent_of(app_image_path);
    move_destination_from(parent, app_image_path, install_dir)
}

/// The text in lower case, as `str::to_lowercase` gives it.
pub uninterp spec fn lowercase(s: Seq<char>) -> Seq<char>;

/// Calls `str::to_lowercase`. The contract claims only that the result is
/// `lowercase` of the text, a function of the text alone; which characters
/// it maps is not stated.
#[verifier::external_body]
fn to_lowercase(s: &str) -> (r: String)
    ensures
        r@ == lowercase(s@),
{
    s.to_lowercase()
}

/// Whether an answer, already in lower case, means yes: `y` or `yes`.
pub open spec fn means_yes(lowered: Seq<char>) -> bool {
    lowered == seq!['y'] || lowered == seq!['y', 'e', 's']
}

/// Whether the lower-case answer `lowered` means yes.
pub fn answer_is_yes(lowered: &str) -> (r: bool)
    ensures
        r == means_yes(lowered@),
{
    let a = chars_of(lowered);
    let y: Vec<char> = vec!['y'];
    let yes: Vec<char> = vec!['y', 'e', 's'];
    assert(y@ =~= seq!['y']);
    assert(yes@ =~= seq!['y', 'e', 's']);
    chars_equal(&a, &y) || chars_equal(&a, &yes)
}

/// Whether the line typed at a yes/no prompt answers yes: trimmed and in
/// lower case, it is `y` or `yes`.
pub fn is_yes_answer(line: &str) -> (r: bool)
    ensures
        r == means_yes(lowercase(trimmed(line@))),
{
    let t = trim(line);
    let lowered = to_lowercase(t.as_str());
    answer_is_yes(lowered.as_str())
}

/// An AppImage offered for installing or removing.
#[derive(Debug)]
pub struct AppImageEntry {
    pub path: String,
    pub name: String,
    /// Whether a desktop entry already launches it.
    pub integrated: bool,
}

/// Whether one of `entries` is for the file at `path`.
pub open spec fn lists_path(entries: Seq<AppImageEntry>, path: Seq<char>) -> bool {
    exists|i: int| 0 <= i < entries.len() && #[trigger] entries[i].path@ == path
}

/// `entries` followed by those of `extra` whose path is not listed yet,
/// taken in order.
pub open spec fn merged(entries: Seq<AppImageEntry>, extra: Seq<AppImageEntry>) -> Seq<
    AppImageEntry,
>
    decreases extra.len(),
{
    if extra.len() == 0 {
        entries
    } else {
        let next = if lists_path(entries, extra[0].path@) {
            entries
        } else {
            entries.push(extra[0])
        };
        merged(next, extra.drop_first())
    }
}

/// Adds to `entries` the AppImages of `extra` whose path is not listed yet.
pub fn merge_entries(entries: Vec<AppImageEntry>, extra: Vec<AppImageEntry>) -> (r: Vec<
    AppImageEntry,
>)
    ensures
        r@ == merged(entries@, extra@),
{
    let mut r = entries;
    let mut rest = extra;
    while rest.len() > 0
        invariant
            merged(entries@, extra@) == merged(r@, rest@),
        decreases rest@.len(),
    {
        let e = rest.remove(0);
        let ghost before = r@;
        let mut listed = false;
        let mut j: usize = 0;
        while j < r.len()
            invariant
                r@ == before,
                j <= r@.len(),
                listed == exists|k: int| 0 <= k < j && #[trigger] r@[k].path@ == e.path@,
            decreases r@.len() - j,
        {
            if r[j].path == e.path {
                listed = true;
            }
            j += 1;
        }
        assert(listed == lists_path(r@, e.path@));
        if !listed {
            r.push(e);
        }
    }
    r
}

} // verus!
