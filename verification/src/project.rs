//! Projects: where their private (`.notez`) and public (`notez`) stores
//! live, the numbered home directory each project mirrors into, the
//! project-name to path mapping file, and project names.
use vstd::prelude::*;
use crate::config::{plain_value, Config, ConfigView};
use crate::numbering::{
    dir_views, next_available_number, numbered_dir_name, numbered_dir_name_spec, sanitize_name,
    sanitized, NumberedDir, NumberedDirView, lowest_free, number_taken,
};
use crate::paths::{file_name, file_name_of, path_join, path_join_spec};
use crate::text::{
    append_chars, chars_of, free_of, is_ws, lemma_lines_state_line, lemma_lines_state_plain,
    lemma_split_once_at, lemma_trim_plain, lines, lines_state, occurs_at, opt_str_view, split_lines,
    split_once, split_once_chars, string_of, strip_cr, trim, trim_chars, views,
};

verus! {

/// Nerdfont lock icon marking private notes.
pub const ICON_PRIVATE: &'static str = "\u{f023}";

/// Nerdfont globe icon marking public notes.
pub const ICON_PUBLIC: &'static str = "\u{f0ac}";

/// Name of the private store directory.
pub open spec fn private_store() -> Seq<char> {
    seq!['.', 'n', 'o', 't', 'e', 'z']
}

/// Name of the public store directory.
pub open spec fn public_store() -> Seq<char> {
    seq!['n', 'o', 't', 'e', 'z']
}

/// The local store for the current directory `cwd`: `notez/` when public,
/// `.notez/` otherwise.
pub open spec fn local_dir_spec(cwd: Seq<char>, public: bool) -> Seq<char> {
    path_join_spec(cwd, if public { public_store() } else { private_store() })
}

/// Returns the local notez directory of `cwd` based on the public flag.
pub fn local_notez_dir(cwd: &str, public: bool) -> (r: String)
    ensures
        r@ == local_dir_spec(cwd@, public),
{
    let name = if public {
        vec!['n', 'o', 't', 'e', 'z']
    } else {
        vec!['.', 'n', 'o', 't', 'e', 'z']
    };
    proof {
        assert(name@ =~= (if public { public_store() } else { private_store() }));
    }
    let n = string_of(name.as_slice());
    path_join(cwd, n.as_str())
}

/// The working directory of a command: the root when global, else the
/// local store.
pub open spec fn notez_dir_spec(c: ConfigView, cwd: Seq<char>, global: bool, public: bool) -> Seq<char> {
    if global {
        c.notez_root
    } else {
        local_dir_spec(cwd, public)
    }
}

/// Resolve the working directory for a command.
pub fn resolve_notez_dir(config: &Config, cwd: &str, global: bool, public: bool) -> (r: String)
    ensures
        r@ == notez_dir_spec(config@, cwd@, global, public),
{
    if global {
        config.root_path()
    } else {
        local_notez_dir(cwd, public)
    }
}

/// Resolve the quick notes directory: the global one, or the configured
/// name inside the local store.
pub fn resolve_quick_notes_dir(config: &Config, cwd: &str, global: bool, public: bool) -> (r: String)
    ensures
        r@ == (if global {
            path_join_spec(config@.notez_root, config@.quick_notes_dir)
        } else {
            path_join_spec(local_dir_spec(cwd@, public), config@.quick_notes_dir)
        }),
{
    if global {
        config.quick_notes_path()
    } else {
        let local = local_notez_dir(cwd, public);
        path_join(local.as_str(), config.quick_notes_dir.as_str())
    }
}

/// Resolve the daily logs directory: the global one, or the configured name
/// inside the local store.
pub fn resolve_daily_logs_dir(config: &Config, cwd: &str, global: bool, public: bool) -> (r: String)
    ensures
        r@ == (if global {
            path_join_spec(config@.notez_root, config@.daily_logs_dir)
        } else {
            path_join_spec(local_dir_spec(cwd@, public), config@.daily_logs_dir)
        }),
{
    if global {
        config.daily_logs_path()
    } else {
        let local = local_notez_dir(cwd, public);
        path_join(local.as_str(), config.daily_logs_dir.as_str())
    }
}

/// The link a note `source` gets in the home project directory: the home
/// directory joined with the source's file name (none without a file name).
pub open spec fn mirror_link(source: Seq<char>, home: Seq<char>) -> Option<Seq<char>> {
    match file_name_of(source) {
        Some(n) => Some(path_join_spec(home, n)),
        None => None,
    }
}

/// Where the symlink mirroring the file `source` goes in the home project
/// directory.
pub fn mirror_file_to_home(source: &str, home_project_dir: &str) -> (r: Option<String>)
    ensures
        match r {
            Some(l) => mirror_link(source@, home_project_dir@) == Some(l@),
            None => mirror_link(source@, home_project_dir@) is None,
        },
{
    match file_name(source) {
        Some(n) => Some(path_join(home_project_dir, n.as_str())),
        None => None,
    }
}

/// Where the symlink mirroring the directory `source_dir` goes in the home
/// project directory.
pub fn mirror_dir_to_home(source_dir: &str, home_project_dir: &str) -> (r: Option<String>)
    ensures
        match r {
            Some(l) => mirror_link(source_dir@, home_project_dir@) == Some(l@),
            None => mirror_link(source_dir@, home_project_dir@) is None,
        },
{
    mirror_file_to_home(source_dir, home_project_dir)
}

/// What to do to give a project its numbered home directory.
pub enum HomeDirChoice {
    /// The project already has this directory.
    Existing(String),
    /// Create this directory.
    Create(String),
}

/// The home directory of `project` under `root` given its numbered
/// directories: the first one named after the project, else a new one with
/// the lowest free number.
pub open spec fn home_dir_choice_spec(dirs: Seq<NumberedDirView>, root: Seq<char>, project: Seq<char>, r: HomeDirChoice) -> bool {
    if exists|i: int| 0 <= i < dirs.len() && dirs[i].name == project {
        exists|i: int|
            0 <= i < dirs.len() && dirs[i].name == project && (forall|j: int| 0 <= j < i ==> dirs[j].name != project)
                && (r matches HomeDirChoice::Existing(p) && p@ == path_join_spec(root, dirs[i].full_name))
    } else {
        match r {
            HomeDirChoice::Create(p) => exists|n: int| lowest_free(dirs, n) && p@ == path_join_spec(
                root,
                numbered_dir_name_spec(n as u8, project),
            ),
            HomeDirChoice::Existing(_) => false,
        }
    }
}

/// The directory that a `Create` choice with number `n` makes for `project`.
pub open spec fn created_dir(n: int, project: Seq<char>) -> NumberedDirView {
    NumberedDirView { number: n as u8, name: project, full_name: numbered_dir_name_spec(n as u8, project) }
}

/// A project's home directory, once created, is found on the next run: after
/// the directory that a `Create` choice named (the lowest free number and the
/// project's name) is added, the choice is that directory.
pub proof fn law_home_dir_found_again(
    dirs: Seq<NumberedDirView>,
    root: Seq<char>,
    project: Seq<char>,
    n: int,
    r: HomeDirChoice,
)
    requires
        forall|i: int| 0 <= i < dirs.len() ==> (#[trigger] dirs[i]).name != project,
        lowest_free(dirs, n),
        home_dir_choice_spec(dirs.push(created_dir(n, project)), root, project, r),
    ensures
        r matches HomeDirChoice::Existing(p) && p@ == path_join_spec(root, numbered_dir_name_spec(n as u8, project)),
{
    let d = created_dir(n, project);
    let t = dirs.push(d);
    assert(t[dirs.len() as int] == d);
    let i = choose|i: int|
        0 <= i < t.len() && t[i].name == project && (forall|j: int| 0 <= j < i ==> t[j].name != project)
            && (r matches HomeDirChoice::Existing(p) && p@ == path_join_spec(root, t[i].full_name));
    if i < dirs.len() {
        assert(t[i] == dirs[i]);
    }
}

/// `project` can have a home directory among `dirs`: one is already named
/// after it, or some number below 100 is free for a new one.
pub open spec fn home_dir_available(dirs: Seq<NumberedDirView>, project: Seq<char>) -> bool {
    (exists|i: int| 0 <= i < dirs.len() && dirs[i].name == project)
        || (exists|m: int| 0 <= m < 100 && !number_taken(dirs, m))
}

/// Whether `project_name` can have a home directory among `dirs` (when it
/// cannot, every one of the 100 numbers is taken by another project).
pub fn home_dir_available_for(dirs: &[NumberedDir], project_name: &str) -> (r: bool)
    ensures
        r == home_dir_available(dir_views(dirs@), project_name@),
{
    let ghost s = dir_views(dirs@);
    let pn = string_of(chars_of(project_name).as_slice());
    let mut i: usize = 0;
    while i < dirs.len()
        invariant
            i <= dirs@.len(),
            s == dir_views(dirs@),
            pn@ == project_name@,
            forall|j: int| 0 <= j < i ==> s[j].name != project_name@,
        decreases dirs.len() - i,
    {
        proof {
            assert(s[i as int] == dirs@[i as int]@);
        }
        if dirs[i].name == pn {
            return true;
        }
        i = i + 1;
    }
    next_available_number(dirs).is_some()
}

/// Find the numbered home dir of a project name, or the one to create.
/// A root whose 100 numbers are all taken by other projects has no room for
/// it and is left out.
pub fn ensure_home_dir_for(dirs: &[NumberedDir], home_root: &str, project_name: &str) -> (r: HomeDirChoice)
    requires
        home_dir_available(dir_views(dirs@), project_name@),
    ensures
        home_dir_choice_spec(dir_views(dirs@), home_root@, project_name@, r),
{
    let ghost s = dir_views(dirs@);
    let pn = string_of(chars_of(project_name).as_slice());
    let mut i: usize = 0;
    while i < dirs.len()
        invariant
            i <= dirs@.len(),
            s == dir_views(dirs@),
            pn@ == project_name@,
            forall|j: int| 0 <= j < i ==> s[j].name != project_name@,
        decreases dirs.len() - i,
    {
        proof {
            assert(s[i as int] == dirs@[i as int]@);
        }
        if dirs[i].name == pn {
            let p = path_join(home_root, dirs[i].full_name.as_str());
            return HomeDirChoice::Existing(p);
        }
        i = i + 1;
    }
    match next_available_number(dirs) {
        Some(n) => {
            let name = numbered_dir_name(n, project_name);
            HomeDirChoice::Create(path_join(home_root, name.as_str()))
        },
        None => {
            proof {
                assert(false);
            }
            HomeDirChoice::Create(String::new())
        },
    }
}

/// The `.gitignore` content has a line that ignores the private store.
pub open spec fn has_store_line(content: Seq<char>) -> bool {
    exists|i: int| 0 <= i < lines(content).len() && ignores_store(#[trigger] lines(content)[i])
}

/// What to append to a `.gitignore` whose text is `content` (`None` when it
/// cannot be read) so that it ignores the private store: nothing when a line
/// already does, else `.notez` on a line of its own.
pub open spec fn gitignore_addition_spec(content: Option<Seq<char>>) -> Seq<char> {
    match content {
        Some(c) => if has_store_line(c) {
            Seq::empty()
        } else if c.len() > 0 && c.last() != '\n' {
            seq!['\n'] + private_store().push('\n')
        } else {
            private_store().push('\n')
        },
        None => private_store().push('\n'),
    }
}

/// The text to append to a `.gitignore` so that it ignores `.notez`.
pub fn gitignore_addition(content: Option<&str>) -> (r: String)
    ensures
        r@ == gitignore_addition_spec(crate::text::opt_str_view(content)),
{
    let line = vec!['.', 'n', 'o', 't', 'e', 'z', '\n'];
    proof {
        assert(line@ =~= private_store().push('\n'));
    }
    match content {
        Some(c) => {
            if gitignore_has_entry(c) {
                let e: Vec<char> = Vec::new();
                proof {
                    assert(e@ =~= Seq::<char>::empty());
                }
                return string_of(e.as_slice());
            }
            let cs = chars_of(c);
            if cs.len() > 0 && cs[cs.len() - 1] != '\n' {
                let mut out = vec!['\n'];
                append_chars(&mut out, line.as_slice());
                proof {
                    assert(out@ =~= seq!['\n'] + private_store().push('\n'));
                }
                string_of(out.as_slice())
            } else {
                string_of(line.as_slice())
            }
        },
        None => string_of(line.as_slice()),
    }
}

/// The project name: the sanitized name of the git top-level directory when
/// git reports one with a file name, else of the directory itself, else
/// `unnamed`.
pub open spec fn project_name_spec(git_toplevel: Option<Seq<char>>, dir: Seq<char>) -> Seq<char> {
    if git_toplevel is Some && file_name_of(git_toplevel->0) is Some {
        sanitized(file_name_of(git_toplevel->0)->0)
    } else if file_name_of(dir) is Some {
        sanitized(file_name_of(dir)->0)
    } else {
        seq!['u', 'n', 'n', 'a', 'm', 'e', 'd']
    }
}

/// Detect the project name for a directory from what `git rev-parse
/// --show-toplevel` printed (trimmed), if it succeeded.
pub fn detect_project_name(git_toplevel: Option<&str>, dir: &str) -> (r: String)
    ensures
        r@ == project_name_spec(opt_str_view(git_toplevel), dir@),
{
    match git_toplevel {
        Some(top) => {
            match file_name(top) {
                Some(n) => return sanitize_name(n.as_str()),
                None => {},
            }
        },
        None => {},
    }
    match file_name(dir) {
        Some(n) => sanitize_name(n.as_str()),
        None => {
            let u = vec!['u', 'n', 'n', 'a', 'm', 'e', 'd'];
            proof {
                assert(u@ =~= seq!['u', 'n', 'n', 'a', 'm', 'e', 'd']);
            }
            string_of(u.as_slice())
        },
    }
}

/// A `.gitignore` line that already ignores the private store.
pub open spec fn ignores_store(line: Seq<char>) -> bool {
    trim(line) == private_store() || trim(line) == private_store().push('/')
}

/// Whether the `.gitignore` content already has a line for `.notez`.
pub fn gitignore_has_entry(content: &str) -> (r: bool)
    ensures
        r == exists|i: int| 0 <= i < lines(content@).len() && ignores_store(#[trigger] lines(content@)[i]),
{
    let ls = split_lines(chars_of(content).as_slice());
    let a = vec!['.', 'n', 'o', 't', 'e', 'z'];
    let b = vec!['.', 'n', 'o', 't', 'e', 'z', '/'];
    proof {
        assert(a@ =~= private_store());
        assert(b@ =~= private_store().push('/'));
    }
    let mut i: usize = 0;
    while i < ls.len()
        invariant
            i <= ls@.len(),
            views(ls@) == lines(content@),
            a@ == private_store(),
            b@ == private_store().push('/'),
            forall|k: int| 0 <= k < i ==> !ignores_store(#[trigger] lines(content@)[k]),
        decreases ls.len() - i,
    {
        proof {
            assert(views(ls@)[i as int] == ls@[i as int]@);
        }
        let t = trim_chars(ls[i].as_slice());
        let is_a = t.len() == a.len() && crate::text::starts_with_chars(t.as_slice(), a.as_slice());
        let is_b = t.len() == b.len() && crate::text::starts_with_chars(t.as_slice(), b.as_slice());
        proof {
            if is_a {
                assert(t@ =~= a@);
            }
            if is_b {
                assert(t@ =~= b@);
            }
            if t@ == a@ {
                assert(t@.subrange(0, a@.len() as int) =~= a@);
            }
            if t@ == b@ {
                assert(t@.subrange(0, b@.len() as int) =~= b@);
            }
        }
        if is_a || is_b {
            return true;
        }
        i = i + 1;
    }
    false
}

/// `icon name`: the text of a section header.
pub open spec fn header_text_spec(icon: Seq<char>, name: Seq<char>) -> Seq<char> {
    icon + seq![' '] + name
}

/// The text of a section header: an icon, a space, the name.
pub fn header_text(icon: &str, name: &str) -> (r: String)
    ensures
        r@ == header_text_spec(icon@, name@),
{
    let mut out = chars_of(icon);
    out.push(' ');
    let n = chars_of(name);
    append_chars(&mut out, n.as_slice());
    string_of(out.as_slice())
}

/// Some occurrence of `p` in `s` starts at `i`, and none starts earlier.
pub open spec fn first_occurrence(s: Seq<char>, p: Seq<char>, i: int) -> bool {
    occurs_at(s, p, i) && forall|j: int| 0 <= j < i ==> !occurs_at(s, p, j)
}

/// `path.replacen(home, "~", 1)`: the first occurrence of the home
/// directory replaced by `~`.
pub open spec fn tilde_spec(path: Seq<char>, home: Seq<char>, r: Seq<char>) -> bool {
    if exists|i: int| occurs_at(path, home, i) {
        exists|i: int|
            first_occurrence(path, home, i) && r == path.take(i) + seq!['~'] + path.skip(i + home.len())
    } else {
        r == path
    }
}

/// Shorten a path for display by writing its first occurrence of the home
/// directory as `~`.
pub fn tilde_path(path: &str, home: &str) -> (r: String)
    ensures
        tilde_spec(path@, home@, r@),
{
    let p = chars_of(path);
    let h = chars_of(home);
    if h.len() > p.len() {
        proof {
            assert forall|i: int| !occurs_at(p@, h@, i) by {}
        }
        return string_of(p.as_slice());
    }
    let last = p.len() - h.len();
    let mut i: usize = 0;
    while i <= last
        invariant
            h@.len() <= p@.len(),
            last == p@.len() - h@.len(),
            p@ == path@,
            h@ == home@,
            forall|j: int| 0 <= j < i ==> !occurs_at(p@, h@, j),
        decreases last + 1 - i,
    {
        proof {
            assert(i + h@.len() <= p@.len());
        }
        if crate::text::occurs_at_exec(p.as_slice(), h.as_slice(), i) {
            let mut out = crate::text::slice_chars(p.as_slice(), 0, i);
            out.push('~');
            let end = p.len() - (last - i);
            let rest = crate::text::slice_chars(p.as_slice(), end, p.len());
            append_chars(&mut out, rest.as_slice());
            proof {
                assert(out@ =~= p@.take(i as int) + seq!['~'] + p@.skip(i + h@.len()));
                assert(first_occurrence(p@, h@, i as int));
            }
            return string_of(out.as_slice());
        }
        if i == last {
            proof {
                assert forall|j: int| !occurs_at(p@, h@, j) by {
                    if 0 <= j <= last {
                    }
                }
            }
            return string_of(p.as_slice());
        }
        i = i + 1;
    }
    string_of(p.as_slice())
}

// ---------------------------------------------------------------------------
// Project mapping
// ---------------------------------------------------------------------------

/// The map from project names to paths that a list of pairs stands for
/// (for a repeated name, the last pair counts).
pub open spec fn pairs_map(s: Seq<(String, String)>) -> Map<Seq<char>, Seq<char>>
    decreases s.len(),
{
    if s.len() == 0 {
        Map::empty()
    } else {
        pairs_map(s.drop_last()).insert(s.last().0@, s.last().1@)
    }
}

/// The names of a list of pairs are all different.
pub open spec fn distinct_names(s: Seq<(String, String)>) -> bool {
    forall|i: int, j: int| 0 <= i < j < s.len() ==> (#[trigger] s[i]).0@ != (#[trigger] s[j]).0@
}

/// Maps project names to their local working directory paths.
/// Stored as a simple `name=path` text file.
pub struct ProjectMapping {
    projects: Vec<(String, String)>,
}

impl View for ProjectMapping {
    type V = Map<Seq<char>, Seq<char>>;

    closed spec fn view(&self) -> Map<Seq<char>, Seq<char>> {
        pairs_map(self.projects@)
    }
}

/// The effect of one line of the mapping file: blank lines and `#` comments
/// are skipped; `name=path` maps the trimmed name to the trimmed path.
pub open spec fn apply_mapping_line(m: Map<Seq<char>, Seq<char>>, line: Seq<char>) -> Map<Seq<char>, Seq<char>> {
    let t = trim(line);
    if t.len() == 0 || t[0] == '#' {
        m
    } else {
        match split_once(t, '=') {
            Some((name, path)) => m.insert(trim(name), trim(path)),
            None => m,
        }
    }
}

/// The mapping after applying the lines in order.
pub open spec fn apply_mapping_lines(ls: Seq<Seq<char>>) -> Map<Seq<char>, Seq<char>>
    decreases ls.len(),
{
    if ls.len() == 0 {
        Map::empty()
    } else {
        apply_mapping_line(apply_mapping_lines(ls.drop_last()), ls.last())
    }
}

/// The mapping a file content gives (no file: the empty mapping).
pub open spec fn loaded_mapping(content: Option<Seq<char>>) -> Map<Seq<char>, Seq<char>> {
    match content {
        Some(c) => apply_mapping_lines(lines(c)),
        None => Map::empty(),
    }
}

/// `name=path` lines for the pairs, separated by newlines (no final one).
pub open spec fn mapping_text(s: Seq<(Seq<char>, Seq<char>)>) -> Seq<char>
    decreases s.len(),
{
    if s.len() == 0 {
        Seq::empty()
    } else if s.len() == 1 {
        s[0].0 + seq!['='] + s[0].1
    } else {
        mapping_text(s.drop_last()) + seq!['\n'] + s.last().0 + seq!['='] + s.last().1
    }
}

/// The views of a list of pairs.
pub open spec fn pair_views(s: Seq<(String, String)>) -> Seq<(Seq<char>, Seq<char>)> {
    s.map_values(|p: (String, String)| (p.0@, p.1@))
}

proof fn lemma_pairs_map_push(s: Seq<(String, String)>, i: int)
    requires
        distinct_names(s),
        0 <= i < s.len(),
    ensures
        pairs_map(s).contains_key(s[i].0@),
        pairs_map(s)[s[i].0@] == s[i].1@,
    decreases s.len(),
{
    if i < s.len() - 1 {
        assert(distinct_names(s.drop_last()));
        lemma_pairs_map_push(s.drop_last(), i);
        assert(s[i] == s.drop_last()[i]);
    }
}

proof fn lemma_pairs_map_keys(s: Seq<(String, String)>, k: Seq<char>)
    ensures
        pairs_map(s).contains_key(k) <==> exists|i: int| 0 <= i < s.len() && (#[trigger] s[i]).0@ == k,
    decreases s.len(),
{
    if s.len() > 0 {
        lemma_pairs_map_keys(s.drop_last(), k);
        if exists|i: int| 0 <= i < s.drop_last().len() && (#[trigger] s.drop_last()[i]).0@ == k {
            let i = choose|i: int| 0 <= i < s.drop_last().len() && (#[trigger] s.drop_last()[i]).0@ == k;
            assert(s[i] == s.drop_last()[i]);
        }
        if exists|i: int| 0 <= i < s.len() && (#[trigger] s[i]).0@ == k {
            let i = choose|i: int| 0 <= i < s.len() && (#[trigger] s[i]).0@ == k;
            if i < s.len() - 1 {
                assert(s[i] == s.drop_last()[i]);
            }
        }
    }
}

proof fn lemma_pairs_map_set(s: Seq<(String, String)>, i: int, p: (String, String))
    requires
        distinct_names(s),
        0 <= i < s.len(),
        p.0@ == s[i].0@,
    ensures
        pairs_map(s.update(i, p)) == pairs_map(s).insert(p.0@, p.1@),
    decreases s.len(),
{
    if i == s.len() - 1 {
        assert(s.update(i, p).drop_last() =~= s.drop_last());
        assert(pairs_map(s.update(i, p)) =~= pairs_map(s).insert(p.0@, p.1@));
    } else {
        assert(distinct_names(s.drop_last()));
        lemma_pairs_map_set(s.drop_last(), i, p);
        assert(s.update(i, p).drop_last() =~= s.drop_last().update(i, p));
        assert(s.update(i, p).last() == s.last());
        assert(s.last().0@ != p.0@);
        assert(pairs_map(s.update(i, p)) =~= pairs_map(s).insert(p.0@, p.1@));
    }
}

impl ProjectMapping {
    #[verifier::type_invariant]
    spec fn names_differ(self) -> bool {
        distinct_names(self.projects@)
    }

    /// The (name, path) pairs, each name once, in the order they were added.
    pub closed spec fn pairs(self) -> Seq<(String, String)> {
        self.projects@
    }

    /// An empty mapping.
    pub fn new() -> (r: Self)
        ensures
            r@ == Map::<Seq<char>, Seq<char>>::empty(),
    {
        ProjectMapping { projects: Vec::new() }
    }

    /// The (name, path) pairs of the mapping, each name once.
    pub fn projects(&self) -> (r: &Vec<(String, String)>)
        ensures
            r@ == self.pairs(),
            pairs_map(r@) == self@,
            distinct_names(r@),
    {
        proof {
            use_type_invariant(self);
        }
        &self.projects
    }

    /// Map `name` to `path`, replacing an earlier path of that name.
    pub fn add(&mut self, name: &str, path: &str)
        ensures
            final(self)@ == old(self)@.insert(name@, path@),
    {
        proof {
            use_type_invariant(&*self);
        }
        let n = string_of(chars_of(name).as_slice());
        let p = string_of(chars_of(path).as_slice());
        let mut v: Vec<(String, String)> = Vec::new();
        std::mem::swap(&mut v, &mut self.projects);
        let ghost old_pairs = v@;
        proof {
            assert(old_pairs == old(self).pairs());
        }
        let mut i: usize = 0;
        while i < v.len() && v[i].0 != n
            invariant
                i <= v@.len(),
                v@ == old_pairs,
                n@ == name@,
                distinct_names(old_pairs),
                forall|j: int| 0 <= j < i ==> (#[trigger] old_pairs[j]).0@ != name@,
            decreases v.len() - i,
        {
            i = i + 1;
        }
        if i < v.len() {
            proof {
                assert(old_pairs[i as int].0@ == n@);
            }
            proof {
                lemma_pairs_map_set(old_pairs, i as int, (n, p));
                assert forall|a: int, b: int| 0 <= a < b < old_pairs.update(i as int, (n, p)).len() implies (#[trigger] old_pairs.update(i as int, (n, p))[a]).0@ != (#[trigger] old_pairs.update(i as int, (n, p))[b]).0@ by {
                    if a == i {
                        assert(old_pairs[a].0@ == n@);
                    }
                    if b == i {
                        assert(old_pairs[b].0@ == n@);
                    }
                }
            }
            v.set(i, (n, p));
        } else {
            proof {
                assert forall|a: int, b: int| 0 <= a < b < old_pairs.push((n, p)).len() implies (#[trigger] old_pairs.push((n, p))[a]).0@ != (#[trigger] old_pairs.push((n, p))[b]).0@ by {
                    if b == old_pairs.len() {
                        assert(old_pairs.push((n, p))[a] == old_pairs[a]);
                    }
                }
                assert(old_pairs.push((n, p)).drop_last() =~= old_pairs);
            }
            v.push((n, p));
        }
        self.projects = v;
    }

    /// The path mapped to `name`, if any.
    pub fn get_path(&self, name: &str) -> (r: Option<String>)
        ensures
            match r {
                Some(p) => self@.contains_key(name@) && self@[name@] == p@,
                None => !self@.contains_key(name@),
            },
    {
        proof {
            use_type_invariant(self);
        }
        let n = string_of(chars_of(name).as_slice());
        let mut i: usize = 0;
        while i < self.projects.len()
            invariant
                i <= self.projects@.len(),
                n@ == name@,
                distinct_names(self.projects@),
                forall|j: int| 0 <= j < i ==> (#[trigger] self.projects@[j]).0@ != name@,
            decreases self.projects.len() - i,
        {
            if self.projects[i].0 == n {
                proof {
                    lemma_pairs_map_push(self.projects@, i as int);
                }
                return Some(self.projects[i].1.clone());
            }
            i = i + 1;
        }
        proof {
            lemma_pairs_map_keys(self.projects@, name@);
        }
        None
    }

    /// The mapping a file content gives; `None` (no file) gives the empty mapping.
    pub fn load(content: Option<&str>) -> (r: Self)
        ensures
            r@ == loaded_mapping(opt_str_view(content)),
    {
        let mut mapping = ProjectMapping::new();
        let text = match content {
            Some(t) => t,
            None => return mapping,
        };
        let ls = split_lines(chars_of(text).as_slice());
        let mut i: usize = 0;
        while i < ls.len()
            invariant
                i <= ls@.len(),
                views(ls@) == lines(text@),
                mapping@ == apply_mapping_lines(views(ls@).take(i as int)),
            decreases ls.len() - i,
        {
            proof {
                let vs = views(ls@);
                assert(vs.take(i + 1).drop_last() =~= vs.take(i as int));
                assert(vs.take(i + 1).last() == ls@[i as int]@);
            }
            let t = trim_chars(ls[i].as_slice());
            if t.len() > 0 && t[0] != '#' {
                match split_once_chars(t.as_slice(), '=') {
                    Some((k, v)) => {
                        let name = string_of(trim_chars(k.as_slice()).as_slice());
                        let path = string_of(trim_chars(v.as_slice()).as_slice());
                        mapping.add(name.as_str(), path.as_str());
                    },
                    None => {},
                }
            }
            i = i + 1;
        }
        proof {
            assert(views(ls@).take(ls@.len() as int) =~= views(ls@));
        }
        mapping
    }

    /// The file content storing the mapping: `name=path` lines in the order
    /// of `pairs`, separated by newlines.
    pub fn save(&self) -> (r: String)
        ensures
            r@ == mapping_text(pair_views(self.pairs())),
    {
        let mut out: Vec<char> = Vec::new();
        let mut i: usize = 0;
        while i < self.projects.len()
            invariant
                i <= self.projects@.len(),
                out@ == mapping_text(pair_views(self.projects@).take(i as int)),
            decreases self.projects.len() - i,
        {
            proof {
                let pv = pair_views(self.projects@);
                assert(pv.take(i + 1).drop_last() =~= pv.take(i as int));
                assert(pv.take(i + 1).last() == (self.projects@[i as int].0@, self.projects@[i as int].1@));
            }
            let ghost before = out@;
            if i > 0 {
                out.push('\n');
            }
            let name = chars_of(self.projects[i].0.as_str());
            append_chars(&mut out, name.as_slice());
            out.push('=');
            let path = chars_of(self.projects[i].1.as_str());
            append_chars(&mut out, path.as_slice());
            proof {
                if i == 0 {
                    assert(out@ =~= mapping_text(pair_views(self.projects@).take(1)));
                } else {
                    assert(out@ =~= before + seq!['\n'] + name@ + seq!['='] + path@);
                }
            }
            i = i + 1;
        }
        proof {
            assert(pair_views(self.projects@).take(self.projects@.len() as int) =~= pair_views(self.projects@));
        }
        string_of(out.as_slice())
    }
}

// ---------------------------------------------------------------------------
// Reading back what was saved
// ---------------------------------------------------------------------------

/// A pair that `save` writes as one line and `load` reads back as it was:
/// plain name and path, no `=` in the name, and no name that starts a comment.
pub open spec fn plain_pair(p: (Seq<char>, Seq<char>)) -> bool {
    &&& plain_value(p.0)
    &&& plain_value(p.1)
    &&& free_of(p.0, '=')
    &&& p.0.len() > 0 ==> p.0[0] != '#'
}

/// The line written for a pair.
spec fn pair_line(p: (Seq<char>, Seq<char>)) -> Seq<char> {
    p.0 + seq!['='] + p.1
}

proof fn lemma_pair_line(p: (Seq<char>, Seq<char>))
    requires
        plain_pair(p),
    ensures
        free_of(pair_line(p), '\n'),
        pair_line(p).len() > 0,
        strip_cr(pair_line(p)) == pair_line(p),
        forall|m: Map<Seq<char>, Seq<char>>| #[trigger] apply_mapping_line(m, pair_line(p)) == m.insert(p.0, p.1),
{
    let body = pair_line(p);
    assert forall|i: int| 0 <= i < body.len() implies body[i] != '\n' by {
        if i < p.0.len() {
            assert(body[i] == p.0[i]);
        } else if i > p.0.len() {
            assert(body[i] == p.1[i - p.0.len() - 1]);
        }
    }
    if p.1.len() > 0 {
        assert(body.last() == p.1.last());
    }
    if p.0.len() > 0 {
        assert(body[0] == p.0[0]);
    }
    lemma_trim_plain(body);
    lemma_trim_plain(p.0);
    lemma_trim_plain(p.1);
    lemma_split_once_at(p.0, p.1, '=');
}

proof fn lemma_mapping_text_state(s: Seq<(Seq<char>, Seq<char>)>)
    requires
        s.len() > 0,
        forall|i: int| 0 <= i < s.len() ==> plain_pair(#[trigger] s[i]),
    ensures
        lines_state(mapping_text(s)) == (s.drop_last().map_values(|p: (Seq<char>, Seq<char>)| pair_line(p)), pair_line(s.last())),
    decreases s.len(),
{
    lemma_pair_line(s.last());
    if s.len() == 1 {
        lemma_lines_state_plain(Seq::<char>::empty(), pair_line(s[0]));
        assert(Seq::<char>::empty() + pair_line(s[0]) =~= pair_line(s[0]));
        assert(lines_state(Seq::<char>::empty()) == (Seq::<Seq<char>>::empty(), Seq::<char>::empty()));
        assert(Seq::<char>::empty() + pair_line(s[0]) =~= pair_line(s[0]));
        assert(s.drop_last().map_values(|p: (Seq<char>, Seq<char>)| pair_line(p)) =~= Seq::<Seq<char>>::empty());
    } else {
        let t = s.drop_last();
        lemma_mapping_text_state(t);
        lemma_pair_line(t.last());
        let prev = mapping_text(t);
        lemma_lines_state_plain(prev + seq!['\n'], pair_line(s.last()));
        assert(prev + seq!['\n'] =~= prev + Seq::<char>::empty() + seq!['\n']);
        assert(lines_state(prev + seq!['\n']) == (lines_state(prev).0.push(strip_cr(lines_state(prev).1)), Seq::<char>::empty())) by {
            assert((prev + seq!['\n']).drop_last() =~= prev);
        }
        assert(mapping_text(s) =~= prev + seq!['\n'] + pair_line(s.last()));
        assert(t.drop_last().map_values(|p: (Seq<char>, Seq<char>)| pair_line(p)).push(pair_line(t.last()))
            =~= t.map_values(|p: (Seq<char>, Seq<char>)| pair_line(p)));
        assert(Seq::<char>::empty() + pair_line(s.last()) =~= pair_line(s.last()));
    }
}

proof fn lemma_mapping_lines_apply(s: Seq<(String, String)>)
    requires
        forall|i: int| 0 <= i < s.len() ==> plain_pair(#[trigger] pair_views(s)[i]),
    ensures
        apply_mapping_lines(pair_views(s).map_values(|p: (Seq<char>, Seq<char>)| pair_line(p))) == pairs_map(s),
    decreases s.len(),
{
    if s.len() > 0 {
        let t = s.drop_last();
        assert(pair_views(t) =~= pair_views(s).drop_last());
        assert forall|i: int| 0 <= i < t.len() implies plain_pair(#[trigger] pair_views(t)[i]) by {
            assert(pair_views(t)[i] == pair_views(s)[i]);
        }
        lemma_mapping_lines_apply(t);
        let ls = pair_views(s).map_values(|p: (Seq<char>, Seq<char>)| pair_line(p));
        assert(ls.drop_last() =~= pair_views(t).map_values(|p: (Seq<char>, Seq<char>)| pair_line(p)));
        lemma_pair_line(pair_views(s).last());
        assert(ls.last() == pair_line(pair_views(s).last()));
        assert(apply_mapping_line(apply_mapping_lines(ls.drop_last()), pair_line(pair_views(s).last()))
            == apply_mapping_lines(ls.drop_last()).insert(s.last().0@, s.last().1@));
    }
}

impl ProjectMapping {
    /// Loading what `save` wrote gives back the mapping, when every name and
    /// path is on one line without surrounding blanks, no name holds `=` and
    /// none starts with `#`.
    pub proof fn law_mapping_reload(m: ProjectMapping)
        requires
            forall|i: int| 0 <= i < m.pairs().len() ==> plain_pair(#[trigger] pair_views(m.pairs())[i]),
        ensures
            loaded_mapping(Some(mapping_text(pair_views(m.pairs())))) == m@,
    {
        let s = m.pairs();
        let ps = pair_views(s);
        lemma_mapping_lines_apply(s);
        if s.len() == 0 {
            assert(ps =~= Seq::<(Seq<char>, Seq<char>)>::empty());
            assert(lines_state(Seq::<char>::empty()) == (Seq::<Seq<char>>::empty(), Seq::<char>::empty()));
            assert(ps.map_values(|p: (Seq<char>, Seq<char>)| pair_line(p)) =~= Seq::<Seq<char>>::empty());
        } else {
            lemma_mapping_text_state(ps);
            lemma_pair_line(ps.last());
            assert(ps.drop_last().map_values(|p: (Seq<char>, Seq<char>)| pair_line(p)).push(pair_line(ps.last()))
                =~= ps.map_values(|p: (Seq<char>, Seq<char>)| pair_line(p)));
        }
    }
}

} // verus!
