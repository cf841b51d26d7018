//! Notes and daily logs: the notes under the root in path order, file names
//! and contents of new notes, log entries, numbered directory creation,
//! target directory resolution, pickers' choice lines, and the small
//! decisions of the command-line front end.
use vstd::prelude::*;
use crate::config::{Config, ConfigView};
use crate::numbering::{
    dir_views, fuzzy_match_dir, next_available_number, numbered_dir_name, numbered_dir_name_spec,
    sanitize_name, sanitized, NumberedDir, NumberedDirView, lowest_free, number_taken, is_digit,
    digit_value, two_char_u8, fuzzy_pick, string_views,
};
use crate::paths::{extension, extension_of, file_name, file_name_of, path_join, path_join_spec};
use crate::order::{picks_exactly, sort_order, sorted_by_key};
use crate::project::ProjectMapping;
use crate::text::{
    append_chars, chars_of, contains, contains_chars, first_index, lowercase, opt_str_view,
    slice_chars, str_to_lowercase, string_of, views,
};

verus! {

/// The sort key of a path: its characters with each `/` made the lowest
/// character of all. Comparing keys compares paths component by component,
/// each component by code points: the order `Path` gives to paths that share
/// their root and hold no empty or `.` components.
pub open spec fn path_key(p: Seq<char>) -> Seq<char> {
    p.map_values(|c: char| if c == '/' { '\u{0}' } else { c })
}

/// The sort keys of a list of paths.
pub open spec fn path_keys(files: Seq<String>) -> Seq<Seq<char>> {
    files.map_values(|f: String| path_key(f@))
}

/// Which of the files are notes: their extension is `md`.
pub open spec fn note_picks(files: Seq<String>) -> Seq<bool> {
    files.map_values(|f: String| extension_of(f@) == Some(seq!['m', 'd']))
}

/// One rank for every file: notes are ordered by their keys alone.
pub open spec fn flat_ranks(n: nat) -> Seq<u8> {
    Seq::new(n, |i: int| 0u8)
}

/// The notes among the files found under the notes root (indices into
/// `files`): those whose extension is `md`, sorted by path.
pub fn note_order(files: &[String]) -> (r: Vec<usize>)
    ensures
        picks_exactly(r@, note_picks(files@)),
        sorted_by_key(r@, flat_ranks(files@.len()), path_keys(files@)),
{
    let n = files.len();
    let mut ranks: Vec<u8> = Vec::new();
    let mut keys: Vec<String> = Vec::new();
    let mut pick: Vec<bool> = Vec::new();
    let mut i: usize = 0;
    while i < n
        invariant
            n == files@.len(),
            i <= n,
            ranks@ == flat_ranks(files@.len()).take(i as int),
            keys@.len() == i,
            forall|k: int| 0 <= k < i ==> (#[trigger] keys@[k])@ == path_key(files@[k]@),
            pick@ == note_picks(files@).take(i as int),
        decreases n - i,
    {
        let cs = chars_of(files[i].as_str());
        let mut key: Vec<char> = Vec::new();
        let mut j: usize = 0;
        while j < cs.len()
            invariant
                j <= cs@.len(),
                key@ == path_key(cs@.take(j as int)),
            decreases cs.len() - j,
        {
            let c = cs[j];
            key.push(if c == '/' { '\u{0}' } else { c });
            proof {
                assert(cs@.take(j + 1) =~= cs@.take(j as int).push(c));
                assert(key@ =~= path_key(cs@.take(j + 1)));
            }
            j = j + 1;
        }
        proof {
            assert(cs@.take(cs@.len() as int) =~= cs@);
        }
        let is_note = match extension(files[i].as_str()) {
            Some(e) => {
                let ec = chars_of(e.as_str());
                let r = ec.len() == 2 && ec[0] == 'm' && ec[1] == 'd';
                proof {
                    if r {
                        assert(ec@ =~= seq!['m', 'd']);
                    }
                }
                r
            },
            None => false,
        };
        ranks.push(0);
        keys.push(string_of(key.as_slice()));
        pick.push(is_note);
        proof {
            assert(ranks@ =~= flat_ranks(files@.len()).take(i + 1));
            assert(pick@ =~= note_picks(files@).take(i + 1));
        }
        i = i + 1;
    }
    proof {
        assert(ranks@ =~= flat_ranks(files@.len()));
        assert(pick@ =~= note_picks(files@));
        assert(string_views(keys@) =~= path_keys(files@));
    }
    sort_order(ranks.as_slice(), keys.as_slice(), pick.as_slice())
}

/// Lowercases, collapses whitespace to hyphens, and strips characters that
/// are neither alphanumeric nor `-` (the same rule as directory names).
pub fn sanitize_title(title: &str) -> (r: String)
    ensures
        r@ == sanitized(title@),
{
    sanitize_name(title)
}

/// The file name of a note: `date-title.md`.
pub open spec fn note_name_spec(date: Seq<char>, title: Seq<char>) -> Seq<char> {
    date + seq!['-'] + title + seq!['.', 'm', 'd']
}

/// The content of a new note: a `# title` heading, the date line, and the
/// body when one is given.
pub open spec fn note_content_spec(title: Seq<char>, date: Seq<char>, body: Option<Seq<char>>) -> Seq<char> {
    let head = seq!['#', ' '] + title + seq!['\n', '\n', 'D', 'a', 't', 'e', ':', ' '] + date + seq!['\n', '\n'];
    match body {
        Some(b) => head + b + seq!['\n'],
        None => head,
    }
}

/// A file to create: where and with what content.
pub struct NoteFile {
    pub path: String,
    pub content: String,
}

/// The note to create in `dir` for a date, a (sanitized) title and an
/// optional body.
pub fn create_note_file(dir: &str, date: &str, title: &str, body: Option<&str>) -> (r: NoteFile)
    ensures
        r.path@ == path_join_spec(dir@, note_name_spec(date@, title@)),
        r.content@ == note_content_spec(title@, date@, opt_str_view(body)),
{
    let d = chars_of(date);
    let t = chars_of(title);
    let mut name = d.clone();
    name.push('-');
    append_chars(&mut name, t.as_slice());
    append_chars(&mut name, vec!['.', 'm', 'd'].as_slice());
    proof {
        assert(name@ =~= note_name_spec(date@, title@));
    }
    let path = path_join(dir, string_of(name.as_slice()).as_str());
    let mut c: Vec<char> = vec!['#', ' '];
    append_chars(&mut c, t.as_slice());
    append_chars(&mut c, vec!['\n', '\n', 'D', 'a', 't', 'e', ':', ' '].as_slice());
    append_chars(&mut c, d.as_slice());
    append_chars(&mut c, vec!['\n', '\n'].as_slice());
    match body {
        Some(b) => {
            let bc = chars_of(b);
            append_chars(&mut c, bc.as_slice());
            c.push('\n');
        },
        None => {},
    }
    proof {
        assert(c@ =~= note_content_spec(title@, date@, opt_str_view(body)));
    }
    NoteFile { path, content: string_of(c.as_slice()) }
}

/// The daily log file name for a date.
pub open spec fn log_name_spec(date: Seq<char>) -> Seq<char> {
    date + seq!['-', 'd', 'a', 'i', 'l', 'y', '-', 'l', 'o', 'g', '.', 'm', 'd']
}

/// The header a new daily log starts with.
pub open spec fn log_header_spec(date: Seq<char>) -> Seq<char> {
    seq!['#', ' ', 'D', 'a', 'i', 'l', 'y', ' ', 'L', 'o', 'g', ' ', '-', ' '] + date + seq!['\n', '\n']
}

/// One log entry line: `time - message`.
pub open spec fn log_entry_spec(time: Seq<char>, message: Seq<char>) -> Seq<char> {
    time + seq![' ', '-', ' '] + message + seq!['\n']
}

/// Append a timestamped entry to the daily log of `date` in `dir`: the file
/// and the text to append to it (the header first when the file is new).
pub fn append_log_entry(dir: &str, date: &str, time: &str, message: &str, is_new: bool) -> (r: NoteFile)
    ensures
        r.path@ == path_join_spec(dir@, log_name_spec(date@)),
        r.content@ == (if is_new { log_header_spec(date@) } else { Seq::empty() }) + log_entry_spec(
            time@,
            message@,
        ),
{
    let d = chars_of(date);
    let mut name = d.clone();
    append_chars(&mut name, vec!['-', 'd', 'a', 'i', 'l', 'y', '-', 'l', 'o', 'g', '.', 'm', 'd'].as_slice());
    proof {
        assert(name@ =~= log_name_spec(date@));
    }
    let path = path_join(dir, string_of(name.as_slice()).as_str());
    let mut c: Vec<char> = Vec::new();
    if is_new {
        append_chars(&mut c, vec!['#', ' ', 'D', 'a', 'i', 'l', 'y', ' ', 'L', 'o', 'g', ' ', '-', ' '].as_slice());
        append_chars(&mut c, d.as_slice());
        append_chars(&mut c, vec!['\n', '\n'].as_slice());
    }
    let ghost head = c@;
    append_chars(&mut c, chars_of(time).as_slice());
    append_chars(&mut c, vec![' ', '-', ' '].as_slice());
    append_chars(&mut c, chars_of(message).as_slice());
    c.push('\n');
    proof {
        assert(head =~= (if is_new { log_header_spec(date@) } else { Seq::empty() }));
        assert(c@ =~= head + log_entry_spec(time@, message@));
    }
    NoteFile { path, content: string_of(c.as_slice()) }
}

/// The message of a log command: the words joined by spaces.
pub open spec fn joined_args(args: Seq<Seq<char>>) -> Seq<char> {
    crate::text::join(args, seq![' '])
}

/// Joins command-line words with single spaces.
pub fn join_args(args: &Vec<String>) -> (r: String)
    ensures
        r@ == joined_args(crate::numbering::string_views(args@)),
{
    let mut ws: Vec<Vec<char>> = Vec::new();
    let mut i: usize = 0;
    while i < args.len()
        invariant
            i <= args@.len(),
            views(ws@) == crate::numbering::string_views(args@).take(i as int),
        decreases args.len() - i,
    {
        let w = chars_of(args[i].as_str());
        let ghost before = views(ws@);
        ws.push(w);
        proof {
            assert(views(ws@) =~= before.push(args@[i as int]@));
            assert(crate::numbering::string_views(args@).take(i + 1) =~= crate::numbering::string_views(args@).take(i as int).push(args@[i as int]@));
        }
        i = i + 1;
    }
    proof {
        assert(crate::numbering::string_views(args@).take(args@.len() as int) =~= crate::numbering::string_views(args@));
    }
    let sep = vec![' '];
    let j = crate::text::join_chars(&ws, sep.as_slice());
    proof {
        assert(sep@ =~= seq![' ']);
    }
    string_of(j.as_slice())
}

/// Why a numbered directory cannot be made.
pub open spec fn slots_taken_message() -> Seq<char> {
    seq![
        'a', 'l', 'l', ' ', '1', '0', '0', ' ', 'd', 'i', 'r', 'e', 'c', 't', 'o', 'r', 'y', ' ', 's',
        'l', 'o', 't', 's', ' ', '(', '0', '0', '-', '9', '9', ')', ' ', 'a', 'r', 'e', ' ', 't', 'a',
        'k', 'e', 'n',
    ]
}

/// The name of the numbered directory to create for `name` among `dirs`:
/// the lowest free number and the sanitized name, or the error when all 100
/// numbers are taken.
pub fn create_numbered_dir(dirs: &[NumberedDir], name: &str) -> (r: Result<String, String>)
    ensures
        match r {
            Ok(d) => exists|n: int| lowest_free(dir_views(dirs@), n) && d@ == numbered_dir_name_spec(
                n as u8,
                sanitized(name@),
            ),
            Err(e) => e@ == slots_taken_message() && forall|m: int| 0 <= m < 100 ==> number_taken(
                dir_views(dirs@),
                m,
            ),
        },
{
    let sanitized_name = sanitize_name(name);
    match next_available_number(dirs) {
        Some(n) => Ok(numbered_dir_name(n, sanitized_name.as_str())),
        None => {
            let msg = vec![
                'a', 'l', 'l', ' ', '1', '0', '0', ' ', 'd', 'i', 'r', 'e', 'c', 't', 'o', 'r', 'y', ' ', 's',
                'l', 'o', 't', 's', ' ', '(', '0', '0', '-', '9', '9', ')', ' ', 'a', 'r', 'e', ' ', 't', 'a',
                'k', 'e', 'n',
            ];
            proof {
                assert(msg@ =~= slots_taken_message());
            }
            Err(string_of(msg.as_slice()))
        },
    }
}

/// The first `/`-separated part of a target and the rest after the first `/`.
pub open spec fn split_target_spec(t: Seq<char>) -> (Seq<char>, Seq<char>) {
    match first_index(t, '/') {
        Some(i) => (t.take(i), t.skip(i + 1)),
        None => (t, Seq::empty()),
    }
}

/// A directory to write into, and whether it must be created first.
pub struct TargetDir {
    pub path: String,
    pub create: bool,
}

/// What resolving the `--in` target `target` under `root` gives among the
/// numbered directories `dirs`: its first part (up to the first `/`) picks a
/// directory (fuzzy), the rest names a subdirectory of it, created when
/// given; `None` when no directory's name starts with the first part.
pub open spec fn target_resolved(dirs: Seq<NumberedDirView>, root: Seq<char>, target: Seq<char>, r: Option<TargetDir>) -> bool {
    let (first, rest) = split_target_spec(target);
    match r {
        Some(t) => exists|d: NumberedDirView|
            {
                &&& #[trigger] fuzzy_pick(dirs, lowercase(first), d)
                &&& (t.path@ == if rest.len() == 0 {
                    path_join_spec(root, d.full_name)
                } else {
                    path_join_spec(path_join_spec(root, d.full_name), rest)
                })
                &&& t.create == (rest.len() > 0)
            },
        None => forall|i: int| 0 <= i < dirs.len() ==> !crate::text::starts_with(dirs[i].name, lowercase(first)),
    }
}

/// A nested target keeps its nested part: when `target` has a `/` at `i`
/// (its first) with text after it, a resolved directory is that text joined
/// under the picked directory, and it is to be created; the directory is
/// picked by the text before the `/` alone.
pub proof fn law_nested_target_kept(dirs: Seq<NumberedDirView>, root: Seq<char>, target: Seq<char>, i: int, r: Option<TargetDir>)
    requires
        target_resolved(dirs, root, target, r),
        0 <= i < target.len() - 1,
        target[i] == '/',
        forall|j: int| 0 <= j < i ==> target[j] != '/',
    ensures
        r matches Some(t) ==> t.create && exists|d: NumberedDirView|
            #[trigger] fuzzy_pick(dirs, lowercase(target.take(i)), d)
                && t.path@ == path_join_spec(path_join_spec(root, d.full_name), target.skip(i + 1)),
        r is None ==> forall|k: int| 0 <= k < dirs.len() ==> !crate::text::starts_with(dirs[k].name, lowercase(target.take(i))),
{
    let k = target.take(i);
    let rest = target.skip(i);
    assert(target =~= k + rest);
    crate::text::lemma_first_index_after(k, rest, '/');
    assert(split_target_spec(target) == (k, target.skip(i + 1)));
    assert(target.skip(i + 1).len() > 0);
}

/// A target without `/` names the picked directory itself, which exists.
pub proof fn law_plain_target(dirs: Seq<NumberedDirView>, root: Seq<char>, target: Seq<char>, r: Option<TargetDir>)
    requires
        target_resolved(dirs, root, target, r),
        forall|j: int| 0 <= j < target.len() ==> target[j] != '/',
    ensures
        r matches Some(t) ==> !t.create && exists|d: NumberedDirView|
            #[trigger] fuzzy_pick(dirs, lowercase(target), d) && t.path@ == path_join_spec(root, d.full_name),
{
    lemma_no_slash(target);
}

proof fn lemma_no_slash(s: Seq<char>)
    requires
        forall|j: int| 0 <= j < s.len() ==> s[j] != '/',
    ensures
        first_index(s, '/') is None,
    decreases s.len(),
{
    if s.len() > 0 {
        assert forall|j: int| 0 <= j < s.drop_first().len() implies s.drop_first()[j] != '/' by {
            assert(s.drop_first()[j] == s[j + 1]);
        }
        lemma_no_slash(s.drop_first());
    }
}

/// Resolve a `--in` target that is not an existing path under `root`: its
/// first part names a numbered directory (fuzzy), the rest a subdirectory
/// of it (created when given). `None`: no directory matches.
pub fn resolve_target_dir(dirs: &[NumberedDir], root: &str, target: &str) -> (r: Option<TargetDir>)
    ensures
        target_resolved(dir_views(dirs@), root@, target@, r),
{
    let t = chars_of(target);
    let (first, rest) = match crate::text::split_once_chars(t.as_slice(), '/') {
        Some((a, b)) => (a, b),
        None => (t.clone(), Vec::new()),
    };
    proof {
        match first_index(t@, '/') {
            Some(i) => {},
            None => {
                assert(rest@ =~= Seq::<char>::empty());
            },
        }
    }
    let fs = string_of(first.as_slice());
    assert(fs@ == split_target_spec(target@).0);
    assert(rest@ == split_target_spec(target@).1);
    match fuzzy_match_dir(dirs, fs.as_str()) {
        Some(d) => {
            let base = path_join(root, d.full_name.as_str());
            proof {
                assert(fuzzy_pick(dir_views(dirs@), lowercase(fs@), d@));
            }
            if rest.len() == 0 {
                let r = TargetDir { path: base, create: false };
                proof {
                    let w = d@;
                    assert(fuzzy_pick(dir_views(dirs@), lowercase(fs@), w));
                }
                Some(r)
            } else {
                let rs = string_of(rest.as_slice());
                let r = TargetDir { path: path_join(base.as_str(), rs.as_str()), create: true };
                proof {
                    let w = d@;
                    assert(fuzzy_pick(dir_views(dirs@), lowercase(fs@), w));
                }
                Some(r)
            }
        },
        None => {
            proof {
                assert forall|i: int| 0 <= i < dirs@.len() implies !crate::text::starts_with(dirs@[i]@.name, lowercase(fs@)) by {
                    assert(dir_views(dirs@)[i] == dirs@[i]@);
                    assert(!crate::text::starts_with(dir_views(dirs@)[i].name, lowercase(fs@)));
                }
            }
            None
        },
    }
}

/// `{:02}`: the number in decimal, padded to two digits.
pub open spec fn pad2(n: u8) -> Seq<char> {
    if n < 100 {
        seq![((n / 10) as int + '0' as int) as char, ((n % 10) as int + '0' as int) as char]
    } else {
        seq![
            ((n / 100) as int + '0' as int) as char,
            (((n / 10) % 10) as int + '0' as int) as char,
            ((n % 10) as int + '0' as int) as char,
        ]
    }
}

fn pad2_exec(n: u8) -> (r: Vec<char>)
    ensures
        r@ == pad2(n),
{
    if n < 100 {
        let a: u8 = n / 10 + 48;
        let b: u8 = n % 10 + 48;
        vec![a as char, b as char]
    } else {
        let a: u8 = n / 100 + 48;
        let b: u8 = (n / 10) % 10 + 48;
        let c: u8 = n % 10 + 48;
        let r = vec![a as char, b as char, c as char];
        proof {
            assert(r@ =~= pad2(n));
        }
        r
    }
}

/// A picker line for a numbered directory: `NN  name`.
pub open spec fn dir_choice_spec(d: NumberedDirView) -> Seq<char> {
    pad2(d.number) + seq![' ', ' '] + d.name
}

/// The picker line of a numbered directory.
pub fn dir_choice_line(d: &NumberedDir) -> (r: String)
    ensures
        r@ == dir_choice_spec(d@),
{
    let mut out = pad2_exec(d.number);
    out.push(' ');
    out.push(' ');
    append_chars(&mut out, chars_of(d.name.as_str()).as_slice());
    string_of(out.as_slice())
}

/// A navigator line: `NN  icon  name`, with the lock icon for directories
/// mirrored by a project and the globe for the others.
pub open spec fn nav_choice_spec(d: NumberedDirView, mirrored: bool) -> Seq<char> {
    pad2(d.number) + seq![' ', ' '] + (if mirrored { seq!['\u{f023}'] } else { seq!['\u{f0ac}'] }) + seq![' ', ' '] + d.name
}

/// The navigator line of a numbered directory, given the project mapping.
pub fn nav_choice_line(d: &NumberedDir, mapping: &ProjectMapping) -> (r: String)
    ensures
        r@ == nav_choice_spec(d@, mapping@.contains_key(d@.name)),
{
    let mirrored = mapping.get_path(d.name.as_str()).is_some();
    let mut out = pad2_exec(d.number);
    out.push(' ');
    out.push(' ');
    out.push(if mirrored { '\u{f023}' } else { '\u{f0ac}' });
    out.push(' ');
    out.push(' ');
    append_chars(&mut out, chars_of(d.name.as_str()).as_slice());
    proof {
        assert(out@ =~= nav_choice_spec(d@, mapping@.contains_key(d@.name)));
    }
    string_of(out.as_slice())
}

/// The number a picked line starts with: its two leading ASCII digits.
pub fn choice_number(selected: &str) -> (r: Option<u8>)
    ensures
        r == (if selected@.len() >= 2 { two_char_u8(selected@[0], selected@[1]) } else { None }),
{
    let s = chars_of(selected);
    if s.len() < 2 {
        return None;
    }
    let a = s[0];
    let b = s[1];
    if '0' <= a && a <= '9' && '0' <= b && b <= '9' {
        let da: u8 = ((a as u32) - ('0' as u32)) as u8;
        let db: u8 = ((b as u32) - ('0' as u32)) as u8;
        Some(da * 10 + db)
    } else {
        None
    }
}

/// Index of the first directory with the given number.
pub fn dir_with_number(dirs: &[NumberedDir], n: u8) -> (r: Option<usize>)
    ensures
        match r {
            Some(i) => i < dirs@.len() && dirs@[i as int].number == n && forall|j: int| 0 <= j < i ==> dirs@[j].number != n,
            None => forall|j: int| 0 <= j < dirs@.len() ==> dirs@[j].number != n,
        },
{
    let mut i: usize = 0;
    while i < dirs.len()
        invariant
            i <= dirs@.len(),
            forall|j: int| 0 <= j < i ==> dirs@[j].number != n,
        decreases dirs.len() - i,
    {
        if dirs[i].number == n {
            return Some(i);
        }
        i = i + 1;
    }
    None
}

/// The notes whose file name, lower-cased, contains the lower-cased query;
/// `None` when some path has no file name.
pub fn fuzzy_filter(files: &[String], query: &str) -> (r: Option<Vec<String>>)
    ensures
        match r {
            Some(v) => (forall|i: int| 0 <= i < files@.len() ==> (#[trigger] file_name_of(files@[i]@)) is Some)
                && crate::numbering::string_views(v@) == crate::numbering::string_views(files@).filter(
                |f: Seq<char>| contains(lowercase(file_name_of(f)->0), lowercase(query@)),
            ),
            None => exists|i: int| 0 <= i < files@.len() && (#[trigger] file_name_of(files@[i]@)) is None,
        },
{
    let ql = str_to_lowercase(query);
    let q = chars_of(ql.as_str());
    let ghost pred = |f: Seq<char>| contains(lowercase(file_name_of(f)->0), lowercase(query@));
    let mut out: Vec<String> = Vec::new();
    let mut i: usize = 0;
    while i < files.len()
        invariant
            i <= files@.len(),
            q@ == lowercase(query@),
            pred == (|f: Seq<char>| contains(lowercase(file_name_of(f)->0), lowercase(query@))),
            forall|k: int| 0 <= k < i ==> (#[trigger] file_name_of(files@[k]@)) is Some,
            crate::numbering::string_views(out@) == crate::numbering::string_views(files@).take(i as int).filter(pred),
        decreases files.len() - i,
    {
        let ghost sv = crate::numbering::string_views(files@);
        proof {
            sv.take(i as int).lemma_filter_push(sv[i as int], pred);
            assert(sv.take(i as int).push(sv[i as int]) =~= sv.take(i + 1));
        }
        match file_name(files[i].as_str()) {
            Some(n) => {
                let nl = str_to_lowercase(n.as_str());
                let nc = chars_of(nl.as_str());
                if contains_chars(nc.as_slice(), q.as_slice()) {
                    let ghost before = crate::numbering::string_views(out@);
                    out.push(files[i].clone());
                    proof {
                        assert(crate::numbering::string_views(out@) =~= before.push(files@[i as int]@));
                    }
                }
            },
            None => {
                return None;
            },
        }
        i = i + 1;
    }
    proof {
        assert(crate::numbering::string_views(files@).take(files@.len() as int) =~= crate::numbering::string_views(files@));
    }
    Some(out)
}

/// The program that browses a directory: yazi when installed, else the editor.
pub open spec fn browse_program_spec(c: ConfigView) -> Seq<char> {
    if c.has_yazi {
        seq!['y', 'a', 'z', 'i']
    } else {
        c.editor
    }
}

/// The program `notez`, `logz` and `nav` open a directory with.
pub fn browse_program(config: &Config) -> (r: String)
    ensures
        r@ == browse_program_spec(config@),
{
    if config.has_yazi {
        let y = vec!['y', 'a', 'z', 'i'];
        proof {
            assert(y@ =~= seq!['y', 'a', 'z', 'i']);
        }
        string_of(y.as_slice())
    } else {
        config.editor.clone()
    }
}

/// How a content search runs, by the tools that are installed.
#[derive(PartialEq, Eq, Structural, Clone, Copy, Debug)]
pub enum SearchStrategy {
    /// `rg` piped into `fzf` with a preview.
    RgFzf,
    /// `rg` printing the results.
    Rg,
    /// `grep -rn` piped into `fzf`.
    GrepFzf,
    /// `grep -rn` printing the results.
    Grep,
}

/// The search pipeline for the installed tools.
pub fn search_strategy(has_rg: bool, has_fzf: bool) -> (r: SearchStrategy)
    ensures
        r == (if has_rg && has_fzf {
            SearchStrategy::RgFzf
        } else if has_rg {
            SearchStrategy::Rg
        } else if has_fzf {
            SearchStrategy::GrepFzf
        } else {
            SearchStrategy::Grep
        }),
{
    if has_rg && has_fzf {
        SearchStrategy::RgFzf
    } else if has_rg {
        SearchStrategy::Rg
    } else if has_fzf {
        SearchStrategy::GrepFzf
    } else {
        SearchStrategy::Grep
    }
}

/// The shells completions are generated for.
#[derive(PartialEq, Eq, Structural, Clone, Copy, Debug)]
pub enum ShellKind {
    Zsh,
    Bash,
    Fish,
}

/// The shell a name stands for, ignoring case (`zsh`, `bash`, `fish`).
pub open spec fn shell_spec(lower: Seq<char>) -> Option<ShellKind> {
    if lower == seq!['z', 's', 'h'] {
        Some(ShellKind::Zsh)
    } else if lower == seq!['b', 'a', 's', 'h'] {
        Some(ShellKind::Bash)
    } else if lower == seq!['f', 'i', 's', 'h'] {
        Some(ShellKind::Fish)
    } else {
        None
    }
}

fn chars_eq(a: &[char], b: &[char]) -> (r: bool)
    ensures
        r == (a@ == b@),
{
    let r = a.len() == b.len() && crate::text::starts_with_chars(a, b);
    proof {
        if r {
            assert(a@ =~= b@);
        }
        if a@ == b@ {
            assert(a@.subrange(0, b@.len() as int) =~= b@);
        }
    }
    r
}

/// The shell named by the completions argument.
pub fn parse_shell(name: &str) -> (r: Option<ShellKind>)
    ensures
        r == shell_spec(lowercase(name@)),
{
    let l = str_to_lowercase(name);
    let c = chars_of(l.as_str());
    let z = vec!['z', 's', 'h'];
    let b = vec!['b', 'a', 's', 'h'];
    let f = vec!['f', 'i', 's', 'h'];
    proof {
        assert(z@ =~= seq!['z', 's', 'h']);
        assert(b@ =~= seq!['b', 'a', 's', 'h']);
        assert(f@ =~= seq!['f', 'i', 's', 'h']);
    }
    if chars_eq(c.as_slice(), z.as_slice()) {
        Some(ShellKind::Zsh)
    } else if chars_eq(c.as_slice(), b.as_slice()) {
        Some(ShellKind::Bash)
    } else if chars_eq(c.as_slice(), f.as_slice()) {
        Some(ShellKind::Fish)
    } else {
        None
    }
}

/// Title words (the arguments without a space) and body (the last argument
/// with a space) after reading `args`.
pub open spec fn title_body_scan(args: Seq<Seq<char>>) -> (Seq<Seq<char>>, Option<Seq<char>>)
    decreases args.len(),
{
    if args.len() == 0 {
        (Seq::empty(), None)
    } else {
        let (t, b) = title_body_scan(args.drop_last());
        if contains(args.last(), seq![' ']) {
            (t, Some(args.last()))
        } else {
            (t.push(args.last()), b)
        }
    }
}

/// `split_title_body`: arguments with a space are the body (the last one
/// wins); the others, joined by spaces, are the title (none when there are
/// none).
pub open spec fn title_body_spec(args: Seq<Seq<char>>) -> (Option<Seq<char>>, Option<Seq<char>>) {
    let (t, b) = title_body_scan(args);
    (if t.len() == 0 { None } else { Some(crate::text::join(t, seq![' '])) }, b)
}

/// The views of an optional string.
pub open spec fn opt_string_view(o: Option<String>) -> Option<Seq<char>> {
    match o {
        Some(s) => Some(s@),
        None => None,
    }
}

/// Split args into title words and optional body.
/// Shell quotes mean args with spaces were quoted by the user: words without
/// spaces make the title, the last argument with a space is the body.
pub fn split_title_body(args: Vec<String>) -> (r: (Option<String>, Option<String>))
    ensures
        (opt_string_view(r.0), opt_string_view(r.1)) == title_body_spec(crate::numbering::string_views(args@)),
{
    let ghost sv = crate::numbering::string_views(args@);
    let mut title: Vec<Vec<char>> = Vec::new();
    let mut body: Option<String> = None;
    let space = vec![' '];
    proof {
        assert(space@ =~= seq![' ']);
    }
    let mut i: usize = 0;
    while i < args.len()
        invariant
            i <= args@.len(),
            sv == crate::numbering::string_views(args@),
            space@ == seq![' '],
            (views(title@), opt_string_view(body)) == title_body_scan(sv.take(i as int)),
        decreases args.len() - i,
    {
        proof {
            assert(sv.take(i + 1).drop_last() =~= sv.take(i as int));
            assert(sv.take(i + 1).last() == args@[i as int]@);
        }
        let a = chars_of(args[i].as_str());
        if contains_chars(a.as_slice(), space.as_slice()) {
            body = Some(args[i].clone());
        } else {
            let ghost before = views(title@);
            title.push(a);
            proof {
                assert(views(title@) =~= before.push(args@[i as int]@));
            }
        }
        i = i + 1;
    }
    proof {
        assert(sv.take(args@.len() as int) =~= sv);
    }
    if title.len() == 0 {
        (None, body)
    } else {
        let j = crate::text::join_chars(&title, space.as_slice());
        (Some(string_of(j.as_slice())), body)
    }
}

} // verus!
