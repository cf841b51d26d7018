//! Putting the todo list together: the rows of code TODO comments found in
//! the project, the sections of the local and the global view, the files
//! to write back, and adding a todo from the command line.
use vstd::prelude::*;
use vstd::utf8::{encode_utf8, is_char_boundary};
use crate::input::{char_index_of, lemma_boundary_prefix, prefix_bytes};
use crate::order::{picks_exactly, sort_order, sorted_by_key};
use crate::paths::{file_name, file_name_of};
use crate::project::{ICON_PRIVATE, ICON_PUBLIC};
use crate::text::{append_chars, chars_of, split_lines, split_once, split_once_chars, starts_with, starts_with_chars, string_of, trim, trim_chars, trim_end, lines, views};
use crate::todo::{todo_views, CheckState, TodoItem, TodoView};
use crate::numbering::string_views;
use crate::project::header_text;
use crate::tree::eq_chars;

verus! {

/// The icon of the code TODO section.
pub const ICON_CODE: &'static str = "\u{f121}";

// ---------------------------------------------------------------------------
// Code TODO comments
// ---------------------------------------------------------------------------

/// `str::trim_start_matches(p)`: every leading repetition of `p` removed.
pub open spec fn strip_all(s: Seq<char>, p: Seq<char>) -> Seq<char>
    decreases s.len(),
{
    if p.len() > 0 && starts_with(s, p) {
        strip_all(s.skip(p.len() as int), p)
    } else {
        s
    }
}

/// The text of a TODO comment: the comment markers (`//`, `#`, `--`, `/*`,
/// `<!--`), the word `TODO` and a colon removed, blanks trimmed.
pub open spec fn todo_comment_text(content: Seq<char>) -> Seq<char> {
    let a = strip_all(content, seq!['/', '/']);
    let b = strip_all(a, seq!['#']);
    let c = strip_all(b, seq!['-', '-']);
    let d = strip_all(c, seq!['/', '*']);
    let e = strip_all(d, seq!['<', '!', '-', '-']);
    let f = strip_all(trim(e), seq!['T', 'O', 'D', 'O']);
    trim(strip_all(f, seq![':']))
}

/// A search hit `file:line:content` split at its first two colons.
pub open spec fn hit_parts(line: Seq<char>) -> Option<(Seq<char>, Seq<char>, Seq<char>)> {
    match split_once(line, ':') {
        Some((file, rest)) => match split_once(rest, ':') {
            Some((num, content)) => Some((file, num, content)),
            None => None,
        },
        None => None,
    }
}

/// The characters of `t` that take the first `n` bytes.
pub open spec fn byte_prefix(t: Seq<char>, n: int) -> Seq<char> {
    t.take(choose|k: int| 0 <= k <= t.len() && #[trigger] prefix_bytes(t, k) == n)
}

/// A TODO text cut to 60 bytes (then trimmed and marked with `…`) when longer.
pub open spec fn shortened(t: Seq<char>) -> Seq<char> {
    if encode_utf8(t).len() > 60 {
        trim_end(byte_prefix(t, 60)).push('…')
    } else {
        t
    }
}

/// The hit can be shortened: a text longer than 60 bytes has a character
/// boundary at byte 60.
pub open spec fn hit_ok(line: Seq<char>) -> bool {
    match hit_parts(line) {
        Some((_, _, content)) => {
            let t = todo_comment_text(trim(content));
            encode_utf8(t).len() > 60 ==> is_char_boundary(encode_utf8(t), 60)
        },
        None => true,
    }
}

/// The row a search hit becomes: `file-name:line text`, unchecked, in the
/// `code` project, its source the file that was hit.
pub open spec fn code_row(line: Seq<char>) -> Option<TodoView> {
    match hit_parts(line) {
        Some((file, num, content)) => {
            let t = shortened(todo_comment_text(trim(content)));
            let short = match file_name_of(file) {
                Some(n) => n,
                None => file,
            };
            let head = short + seq![':'] + num;
            Some(
                TodoView {
                    text: if t.len() == 0 {
                        head
                    } else {
                        head + seq![' '] + t
                    },
                    state: CheckState::Unchecked,
                    source: file,
                    project: seq!['c', 'o', 'd', 'e'],
                    is_header: false,
                    depth: 0,
                    has_subtasks: false,
                    collapsed: false,
                    is_code_todo: true,
                    flags: 0,
                },
            )
        },
        None => None,
    }
}

/// The rows of all the hits that have three parts, in order.
pub open spec fn code_rows(ls: Seq<Seq<char>>) -> Seq<TodoView>
    decreases ls.len(),
{
    if ls.len() == 0 {
        Seq::empty()
    } else {
        let prev = code_rows(ls.drop_last());
        match code_row(ls.last()) {
            Some(r) => prev.push(r),
            None => prev,
        }
    }
}

/// Remove every leading repetition of `p`.
fn strip_all_exec(s: &[char], p: &[char]) -> (r: Vec<char>)
    ensures
        r@ == strip_all(s@, p@),
{
    let mut i: usize = 0;
    proof {
        assert(s@.skip(0) =~= s@);
    }
    while p.len() > 0 && crate::text::occurs_at_exec(s, p, i)
        invariant
            i <= s@.len(),
            strip_all(s@, p@) == strip_all(s@.skip(i as int), p@),
        decreases s.len() - i,
    {
        proof {
            assert(s@.skip(i as int).subrange(0, p@.len() as int) =~= s@.subrange(i as int, i + p@.len()));
            assert(starts_with(s@.skip(i as int), p@));
            assert(s@.skip(i as int).skip(p@.len() as int) =~= s@.skip(i + p@.len()));
        }
        i = i + p.len();
    }
    proof {
        if p@.len() > 0 && starts_with(s@.skip(i as int), p@) {
            assert(s@.skip(i as int).subrange(0, p@.len() as int) =~= s@.subrange(i as int, i + p@.len()));
            assert(crate::text::occurs_at(s@, p@, i as int));
        }
        assert(s@.subrange(i as int, s@.len() as int) =~= s@.skip(i as int));
    }
    crate::text::slice_chars(s, i, s.len())
}


/// The text of a TODO comment.
fn comment_text(content: &[char]) -> (r: Vec<char>)
    ensures
        r@ == todo_comment_text(trim(content@)),
{
    let p1 = vec!['/', '/'];
    let p2 = vec!['#'];
    let p3 = vec!['-', '-'];
    let p4 = vec!['/', '*'];
    let p5 = vec!['<', '!', '-', '-'];
    let p6 = vec!['T', 'O', 'D', 'O'];
    let p7 = vec![':'];
    proof {
        assert(p1@ =~= seq!['/', '/']);
        assert(p2@ =~= seq!['#']);
        assert(p3@ =~= seq!['-', '-']);
        assert(p4@ =~= seq!['/', '*']);
        assert(p5@ =~= seq!['<', '!', '-', '-']);
        assert(p6@ =~= seq!['T', 'O', 'D', 'O']);
        assert(p7@ =~= seq![':']);
    }
    let t0 = trim_chars(content);
    let a = strip_all_exec(t0.as_slice(), p1.as_slice());
    let b = strip_all_exec(a.as_slice(), p2.as_slice());
    let c = strip_all_exec(b.as_slice(), p3.as_slice());
    let d = strip_all_exec(c.as_slice(), p4.as_slice());
    let e = strip_all_exec(d.as_slice(), p5.as_slice());
    let f0 = trim_chars(e.as_slice());
    let f = strip_all_exec(f0.as_slice(), p6.as_slice());
    let g = strip_all_exec(f.as_slice(), p7.as_slice());
    let r = trim_chars(g.as_slice());
    r
}

/// The row a search hit `file:line:content` becomes, if it has three parts.
pub fn code_todo_from_line(line: &str) -> (r: Option<TodoItem>)
    requires
        hit_ok(line@),
    ensures
        match r {
            Some(it) => code_row(line@) == Some(it@),
            None => code_row(line@) is None,
        },
{
    let c = chars_of(line);
    let (file, rest) = match split_once_chars(c.as_slice(), ':') {
        Some(p) => p,
        None => {
            return None;
        },
    };
    let (num, content) = match split_once_chars(rest.as_slice(), ':') {
        Some(p) => p,
        None => {
            return None;
        },
    };
    let t = comment_text(content.as_slice());
    let ts = string_of(t.as_slice());
    let nbytes = ts.as_str().as_bytes().len();
    let short_text: Vec<char> = if nbytes > 60 {
        let k = char_index_of(t.as_slice(), 60);
        proof {
            lemma_boundary_prefix(t@, 60);
            let kk = choose|kk: int| 0 <= kk <= t@.len() && #[trigger] prefix_bytes(t@, kk) == 60;
            if k < kk {
                crate::input::lemma_prefix_bytes_mono(t@, k as int, kk);
            } else if kk < k {
                crate::input::lemma_prefix_bytes_mono(t@, kk, k as int);
            }
        }
        let head = crate::text::slice_chars(t.as_slice(), 0, k);
        let mut cut = crate::text::trim_end_chars(head.as_slice());
        cut.push('…');
        proof {
            assert(t@.subrange(0, k as int) =~= t@.take(k as int));
        }
        cut
    } else {
        t
    };
    let short = match file_name(string_of(file.as_slice()).as_str()) {
        Some(n) => chars_of(n.as_str()),
        None => file.clone(),
    };
    let mut text = short;
    text.push(':');
    append_chars(&mut text, num.as_slice());
    if short_text.len() > 0 {
        text.push(' ');
        append_chars(&mut text, short_text.as_slice());
    }
    let code = vec!['c', 'o', 'd', 'e'];
    proof {
        assert(code@ =~= seq!['c', 'o', 'd', 'e']);
    }
    proof {
        let tt = todo_comment_text(trim(content@));
        assert(t@ == tt);
        assert(nbytes == encode_utf8(tt).len());
        assert(short_text@ == shortened(tt));
        let sh = match file_name_of(file@) {
            Some(n) => n,
            None => file@,
        };
        assert(short@ == sh);
        assert(hit_parts(line@) == Some((file@, num@, content@)));
        let head = sh + seq![':'] + num@;
        if short_text@.len() == 0 {
            assert(text@ =~= head);
        } else {
            assert(text@ =~= head + seq![' '] + short_text@);
        }
    }
    let it = TodoItem {
        text: string_of(text.as_slice()),
        state: CheckState::Unchecked,
        source: string_of(file.as_slice()),
        project: string_of(code.as_slice()),
        is_header: false,
        depth: 0,
        has_subtasks: false,
        collapsed: false,
        is_code_todo: true,
        flags: 0,
    };
    Some(it)
}

/// Some prefix of `t` takes exactly `n` bytes.
fn reaches_bytes(t: &[char], n: usize) -> (r: bool)
    requires
        n <= 60,
    ensures
        r == exists|k: int| 0 <= k <= t@.len() && #[trigger] prefix_bytes(t@, k) == n,
{
    let mut acc: usize = 0;
    let mut k: usize = 0;
    proof {
        assert(t@.take(0) =~= Seq::<char>::empty());
        assert(prefix_bytes(t@, 0) == 0);
    }
    while k < t.len() && acc < n
        invariant
            n <= 60,
            k <= t@.len(),
            acc == prefix_bytes(t@, k as int),
            acc <= n + 4,
            forall|j: int| 0 <= j < k ==> prefix_bytes(t@, j) < n,
        decreases t.len() - k,
    {
        proof {
            crate::input::lemma_prefix_bytes_step(t@, k as int);
        }
        acc = acc + crate::input::char_len_utf8(t[k]);
        k = k + 1;
        proof {
            crate::input::lemma_scalar_len(t@[k - 1]);
        }
    }
    let r = acc == n;
    proof {
        if !r {
            if exists|kk: int| 0 <= kk <= t@.len() && #[trigger] prefix_bytes(t@, kk) == n {
                let kk = choose|kk: int| 0 <= kk <= t@.len() && #[trigger] prefix_bytes(t@, kk) == n;
                if kk < k {
                    assert(prefix_bytes(t@, kk) < n);
                } else if kk > k {
                    crate::input::lemma_prefix_bytes_mono(t@, k as int, kk);
                    if acc < n {
                        assert(k == t@.len());
                    }
                }
            }
        }
    }
    r
}

/// Whether a search hit can be turned into a row: its TODO text, when
/// longer than 60 bytes, has a character boundary at byte 60.
pub fn hit_is_ok(line: &str) -> (r: bool)
    ensures
        r == hit_ok(line@),
{
    let c = chars_of(line);
    let (file, rest) = match split_once_chars(c.as_slice(), ':') {
        Some(p) => p,
        None => {
            return true;
        },
    };
    let (num, content) = match split_once_chars(rest.as_slice(), ':') {
        Some(p) => p,
        None => {
            return true;
        },
    };
    let t = comment_text(content.as_slice());
    let ts = string_of(t.as_slice());
    let nbytes = ts.as_str().as_bytes().len();
    proof {
        assert(hit_parts(line@) == Some((file@, num@, content@)));
        assert(t@ == todo_comment_text(trim(content@)));
        assert(nbytes == encode_utf8(t@).len());
    }
    if nbytes > 60 {
        let r = reaches_bytes(t.as_slice(), 60);
        proof {
            lemma_boundary_prefix(t@, 60);
        }
        r
    } else {
        true
    }
}

/// The rows of every hit in a search output, one line per hit.
pub fn code_todos_from_output(output: &str) -> (r: Vec<TodoItem>)
    requires
        forall|i: int| 0 <= i < lines(output@).len() ==> hit_ok(#[trigger] lines(output@)[i]),
    ensures
        todo_views(r@) == code_rows(lines(output@)),
{
    let c = chars_of(output);
    let ls = split_lines(c.as_slice());
    let mut out: Vec<TodoItem> = Vec::new();
    let mut i: usize = 0;
    while i < ls.len()
        invariant
            i <= ls@.len(),
            views(ls@) == lines(output@),
            forall|k: int| 0 <= k < lines(output@).len() ==> hit_ok(#[trigger] lines(output@)[k]),
            todo_views(out@) == code_rows(views(ls@).take(i as int)),
        decreases ls.len() - i,
    {
        proof {
            assert(views(ls@).take(i + 1).drop_last() =~= views(ls@).take(i as int));
            assert(views(ls@).take(i + 1).last() == ls@[i as int]@);
            assert(views(ls@)[i as int] == ls@[i as int]@);
        }
        let line = string_of(ls[i].as_slice());
        match code_todo_from_line(line.as_str()) {
            Some(it) => {
                let ghost before = out@;
                out.push(it);
                proof {
                    assert(todo_views(out@) =~= todo_views(before).push(out@[out@.len() - 1]@));
                }
            },
            None => {},
        }
        i = i + 1;
    }
    proof {
        assert(views(ls@).take(ls@.len() as int) =~= views(ls@));
    }
    out
}


// ---------------------------------------------------------------------------
// Sections of the views
// ---------------------------------------------------------------------------

/// What `str::to_uppercase` returns for a string (full Unicode case mapping).
pub uninterp spec fn uppercase(s: Seq<char>) -> Seq<char>;

/// `str::to_uppercase`; its result is named `uppercase`.
#[verifier::external_body]
pub(crate) fn str_to_uppercase(s: &str) -> (r: String)
    ensures
        r@ == uppercase(s@),
{
    s.to_uppercase()
}

/// A section header row.
pub open spec fn header_row(text: Seq<char>, source: Seq<char>, project: Seq<char>, collapsed: bool, code: bool) -> TodoView {
    TodoView {
        text,
        state: CheckState::Unchecked,
        source,
        project,
        is_header: true,
        depth: 0,
        has_subtasks: false,
        collapsed,
        is_code_todo: code,
        flags: 0,
    }
}

/// An icon, a space and a name.
pub open spec fn icon_title(icon: Seq<char>, name: Seq<char>) -> Seq<char> {
    icon + seq![' '] + name
}

/// The decimal digits of a number.
pub open spec fn decimal(n: nat) -> Seq<char>
    decreases n,
{
    if n < 10 {
        seq![(n + 48) as char]
    } else {
        decimal(n / 10).push(((n % 10) + 48) as char)
    }
}

/// Write a number in decimal.
pub fn decimal_exec(n: usize) -> (r: Vec<char>)
    ensures
        r@ == decimal(n as nat),
    decreases n,
{
    if n < 10 {
        let c = ((n as u8) + 48) as char;
        let v = vec![c];
        proof {
            assert(v@ =~= decimal(n as nat));
        }
        v
    } else {
        let mut v = decimal_exec(n / 10);
        v.push((((n % 10) as u8) + 48) as char);
        v
    }
}

/// The header of the code TODO section for `n` hits.
pub open spec fn code_header(n: nat) -> TodoView {
    header_row(
        ICON_CODE@ + seq![' ', 'c', 'o', 'd', 'e', ' ', 'T', 'O', 'D', 'O', 's', ' ', ' ', '('] + decimal(n) + seq![' ', 'f', 'o', 'u', 'n', 'd', ')'],
        Seq::empty(),
        seq!['c', 'o', 'd', 'e'],
        false,
        true,
    )
}

/// The rows of the local view: the public file's section alone (`public`),
/// or the private and the public sections that have todos (the private
/// header alone when neither has); then the code TODOs under their header.
pub open spec fn local_rows(
    name: Seq<char>,
    public: bool,
    private_path: Seq<char>,
    public_path: Seq<char>,
    private_items: Seq<TodoView>,
    public_items: Seq<TodoView>,
    code: Seq<TodoView>,
) -> Seq<TodoView> {
    let priv_header = header_row(icon_title(ICON_PRIVATE@, name), private_path, name, false, false);
    let pub_header = header_row(icon_title(ICON_PUBLIC@, name), public_path, name, false, false);
    let base = if public {
        seq![pub_header] + public_items
    } else {
        let a = (if private_items.len() > 0 {
            seq![priv_header] + private_items
        } else {
            Seq::empty()
        }) + (if public_items.len() > 0 {
            seq![pub_header] + public_items
        } else {
            Seq::empty()
        });
        if a.len() == 0 {
            seq![priv_header]
        } else {
            a
        }
    };
    base + (if code.len() > 0 {
        seq![code_header(code.len())] + code
    } else {
        Seq::empty()
    })
}

/// A header row as an item.
fn header_item(icon: &str, name: &str, source: &str, project: &str, collapsed: bool) -> (r: TodoItem)
    ensures
        r@ == header_row(icon_title(icon@, name@), source@, project@, collapsed, false),
{
    let text = header_text(icon, name);
    TodoItem {
        text,
        state: CheckState::Unchecked,
        source: string_of(chars_of(source).as_slice()),
        project: string_of(chars_of(project).as_slice()),
        is_header: true,
        depth: 0,
        has_subtasks: false,
        collapsed,
        is_code_todo: false,
        flags: 0,
    }
}

/// Append items.
fn append_items(out: &mut Vec<TodoItem>, items: Vec<TodoItem>)
    ensures
        todo_views(final(out)@) == todo_views(old(out)@) + todo_views(items@),
{
    let mut items = items;
    let ghost a = out@;
    let ghost b = items@;
    out.append(&mut items);
    proof {
        assert(out@ == a + b);
        assert(todo_views(out@) =~= todo_views(a) + todo_views(b));
    }
}

/// The local view: the sections of the project's private and public
/// `TODO.md` and its code TODOs.
pub fn assemble_local(
    name: &str,
    public: bool,
    private_path: &str,
    public_path: &str,
    private_items: Vec<TodoItem>,
    public_items: Vec<TodoItem>,
    code: Vec<TodoItem>,
) -> (r: Vec<TodoItem>)
    ensures
        todo_views(r@) == local_rows(name@, public, private_path@, public_path@, todo_views(private_items@), todo_views(public_items@), todo_views(code@)),
{
    let mut out: Vec<TodoItem> = Vec::new();
    let ghost pv = todo_views(private_items@);
    let ghost uv = todo_views(public_items@);
    let ghost cv = todo_views(code@);
    let ghost priv_header = header_row(icon_title(ICON_PRIVATE@, name@), private_path@, name@, false, false);
    let ghost pub_header = header_row(icon_title(ICON_PUBLIC@, name@), public_path@, name@, false, false);
    if public {
        out.push(header_item(ICON_PUBLIC, name, public_path, name, false));
        proof {
            assert(todo_views(out@) =~= seq![pub_header]);
        }
        append_items(&mut out, public_items);
    } else {
        let np = private_items.len();
        let nu = public_items.len();
        let ghost a1 = if pv.len() > 0 {
            seq![priv_header] + pv
        } else {
            Seq::<TodoView>::empty()
        };
        let ghost a2 = if uv.len() > 0 {
            seq![pub_header] + uv
        } else {
            Seq::<TodoView>::empty()
        };
        if np > 0 {
            out.push(header_item(ICON_PRIVATE, name, private_path, name, false));
            proof {
                assert(todo_views(out@) =~= seq![priv_header]);
            }
            append_items(&mut out, private_items);
        }
        proof {
            assert(todo_views(out@) =~= a1);
        }
        if nu > 0 {
            let ghost before = todo_views(out@);
            out.push(header_item(ICON_PUBLIC, name, public_path, name, false));
            proof {
                assert(todo_views(out@) =~= before.push(pub_header));
            }
            append_items(&mut out, public_items);
            proof {
                assert(todo_views(out@) =~= a1 + a2);
            }
        } else {
            proof {
                assert(todo_views(out@) =~= a1 + a2);
            }
        }
        if out.len() == 0 {
            out.push(header_item(ICON_PRIVATE, name, private_path, name, false));
            proof {
                assert(todo_views(out@) =~= seq![priv_header]);
            }
        }
    }
    proof {
        let l = local_rows(name@, public, private_path@, public_path@, pv, uv, cv);
        let expected_base = if public {
            seq![pub_header] + uv
        } else {
            let a = (if pv.len() > 0 {
                seq![priv_header] + pv
            } else {
                Seq::empty()
            }) + (if uv.len() > 0 {
                seq![pub_header] + uv
            } else {
                Seq::empty()
            });
            if a.len() == 0 {
                seq![priv_header]
            } else {
                a
            }
        };
        assert(todo_views(out@) == expected_base);
    }
    let ghost base = todo_views(out@);
    let nc = code.len();
    if nc > 0 {
        let mut t = chars_of(ICON_CODE);
        let words = vec![' ', 'c', 'o', 'd', 'e', ' ', 'T', 'O', 'D', 'O', 's', ' ', ' ', '('];
        append_chars(&mut t, words.as_slice());
        let d = decimal_exec(nc);
        append_chars(&mut t, d.as_slice());
        let tail = vec![' ', 'f', 'o', 'u', 'n', 'd', ')'];
        append_chars(&mut t, tail.as_slice());
        let cw = vec!['c', 'o', 'd', 'e'];
        proof {
            assert(words@ =~= seq![' ', 'c', 'o', 'd', 'e', ' ', 'T', 'O', 'D', 'O', 's', ' ', ' ', '(']);
            assert(tail@ =~= seq![' ', 'f', 'o', 'u', 'n', 'd', ')']);
            assert(cw@ =~= seq!['c', 'o', 'd', 'e']);
        }
        out.push(TodoItem {
            text: string_of(t.as_slice()),
            state: CheckState::Unchecked,
            source: String::new(),
            project: string_of(cw.as_slice()),
            is_header: true,
            depth: 0,
            has_subtasks: false,
            collapsed: false,
            is_code_todo: true,
            flags: 0,
        });
        proof {
            assert(todo_views(out@) =~= base.push(code_header(cv.len())));
        }
        append_items(&mut out, code);
    }
    proof {
        assert(todo_views(out@) =~= local_rows(name@, public, private_path@, public_path@, pv, uv, cv));
    }
    out
}


/// A `TODO.md` found for the global view: the directory's name, the file,
/// the file's resolved path (to notice one file reached twice), and its
/// todos.
pub struct TodoSource {
    pub name: String,
    pub path: String,
    pub canonical: String,
    pub items: Vec<TodoItem>,
}

/// The mathematical content of a `TodoSource`.
pub struct SourceView {
    pub name: Seq<char>,
    pub path: Seq<char>,
    pub canonical: Seq<char>,
    pub items: Seq<TodoView>,
}

/// The views of sources.
pub open spec fn source_views(v: Seq<TodoSource>) -> Seq<SourceView> {
    v.map_values(|t: TodoSource| SourceView { name: t.name@, path: t.path@, canonical: t.canonical@, items: todo_views(t.items@) })
}

/// Sources of the global view: home directories (0), categories under
/// `_todos` (1), and projects' public notes (2).
pub open spec fn section_title(kind: u8, name: Seq<char>) -> Seq<char> {
    if kind == 0 {
        icon_title(ICON_PRIVATE@, name)
    } else if kind == 1 {
        icon_title(ICON_PRIVATE@, uppercase(name))
    } else {
        icon_title(ICON_PUBLIC@, name)
    }
}

/// The sections of sources of one kind, in order, skipping a file already
/// reached (`seen`) and, except for categories, a file without todos; with
/// the resolved paths seen afterwards.  Sections start collapsed.
pub open spec fn gather(kind: u8, srcs: Seq<SourceView>, seen: Seq<Seq<char>>) -> (Seq<TodoView>, Seq<Seq<char>>)
    decreases srcs.len(),
{
    if srcs.len() == 0 {
        (Seq::empty(), seen)
    } else {
        let (rows, seen1) = gather(kind, srcs.drop_last(), seen);
        let src = srcs.last();
        if seen1.contains(src.canonical) {
            (rows, seen1)
        } else if kind != 1 && src.items.len() == 0 {
            (rows, seen1.push(src.canonical))
        } else {
            (
                rows + seq![header_row(section_title(kind, src.name), src.path, src.name, true, false)] + src.items,
                seen1.push(src.canonical),
            )
        }
    }
}

/// Sources in the order given.
pub open spec fn reordered(s: Seq<SourceView>, order: Seq<usize>) -> Seq<SourceView> {
    Seq::new(order.len(), |k: int| s[order[k] as int])
}

/// The global view: the collapsed GLOBAL section of the notes root's
/// `TODO.md`, then the categories, then the home directories, then the
/// projects' public notes.
pub open spec fn global_rows(root_todo: Seq<char>, global: Seq<TodoView>, dirs: Seq<SourceView>, cats: Seq<SourceView>, projects: Seq<SourceView>) -> Seq<TodoView> {
    let (d, s1) = gather(0, dirs, Seq::empty());
    let (c, s2) = gather(1, cats, s1);
    let (p, s3) = gather(2, projects, s2);
    seq![header_row(icon_title(ICON_PRIVATE@, seq!['G', 'L', 'O', 'B', 'A', 'L']), root_todo, seq!['g', 'l', 'o', 'b', 'a', 'l'], true, false)] + global + c + d + p
}

/// The source names, for sorting.
pub open spec fn source_names(s: Seq<SourceView>) -> Seq<Seq<char>> {
    s.map_values(|v: SourceView| v.name)
}

/// Whether `x` is among the strings.
fn seen_contains(seen: &Vec<String>, x: &str) -> (r: bool)
    ensures
        r == string_views(seen@).contains(x@),
{
    let xc = chars_of(x);
    let mut i: usize = 0;
    while i < seen.len()
        invariant
            i <= seen@.len(),
            xc@ == x@,
            forall|k: int| 0 <= k < i ==> seen@[k]@ != x@,
        decreases seen.len() - i,
    {
        if eq_chars(chars_of(seen[i].as_str()).as_slice(), xc.as_slice()) {
            proof {
                assert(string_views(seen@)[i as int] == x@);
            }
            return true;
        }
        i = i + 1;
    }
    proof {
        if string_views(seen@).contains(x@) {
            let k = choose|k: int| 0 <= k < string_views(seen@).len() && string_views(seen@)[k] == x@;
            assert(seen@[k]@ == x@);
        }
    }
    false
}

/// Append copies of items.
fn append_copies(out: &mut Vec<TodoItem>, items: &Vec<TodoItem>)
    ensures
        todo_views(final(out)@) == todo_views(old(out)@) + todo_views(items@),
{
    let ghost start = todo_views(out@);
    let mut i: usize = 0;
    while i < items.len()
        invariant
            i <= items@.len(),
            todo_views(out@) == start + todo_views(items@).take(i as int),
        decreases items.len() - i,
    {
        let c = items[i].clone();
        let ghost before = todo_views(out@);
        out.push(c);
        proof {
            assert(todo_views(out@) =~= before.push(items@[i as int]@));
            assert(todo_views(items@).take(i + 1) =~= todo_views(items@).take(i as int).push(items@[i as int]@));
        }
        i = i + 1;
    }
    proof {
        assert(todo_views(items@).take(items@.len() as int) =~= todo_views(items@));
    }
}

/// Add the sections of `srcs` (taken in the order `order`) to `out`.
fn gather_exec(out: &mut Vec<TodoItem>, seen: &mut Vec<String>, kind: u8, srcs: &Vec<TodoSource>, order: &Vec<usize>)
    requires
        forall|k: int| 0 <= k < order@.len() ==> (#[trigger] order@[k] as int) < srcs@.len(),
    ensures
        ({
            let (rows, seen2) = gather(kind, reordered(source_views(srcs@), order@), string_views(old(seen)@));
            &&& todo_views(final(out)@) == todo_views(old(out)@) + rows
            &&& string_views(final(seen)@) == seen2
        }),
{
    let ghost sv = source_views(srcs@);
    let ghost rs = reordered(sv, order@);
    let ghost start_out = todo_views(out@);
    let ghost start_seen = string_views(seen@);
    let mut i: usize = 0;
    while i < order.len()
        invariant
            sv == source_views(srcs@),
            rs == reordered(sv, order@),
            forall|k: int| 0 <= k < order@.len() ==> (#[trigger] order@[k] as int) < srcs@.len(),
            i <= order@.len(),
            ({
                let (rows, seen2) = gather(kind, rs.take(i as int), start_seen);
                &&& todo_views(out@) == start_out + rows
                &&& string_views(seen@) == seen2
            }),
        decreases order.len() - i,
    {
        let o = order[i];
        let src = &srcs[o];
        let ghost sview = sv[o as int];
        proof {
            assert(sview == SourceView { name: src.name@, path: src.path@, canonical: src.canonical@, items: todo_views(src.items@) });
            assert(rs.take(i + 1).drop_last() =~= rs.take(i as int));
            assert(rs.take(i + 1).last() == sview);
        }
        let is_seen = seen_contains(seen, src.canonical.as_str());
        if !is_seen {
            let ghost s_before = seen@;
            seen.push(string_of(chars_of(src.canonical.as_str()).as_slice()));
            proof {
                assert(string_views(seen@) =~= string_views(s_before).push(sview.canonical));
            }
            if kind != 1 && src.items.len() == 0 {
            } else {
                let title: String = if kind == 0 {
                    header_text(ICON_PRIVATE, src.name.as_str())
                } else if kind == 1 {
                    let up = str_to_uppercase(src.name.as_str());
                    header_text(ICON_PRIVATE, up.as_str())
                } else {
                    header_text(ICON_PUBLIC, src.name.as_str())
                };
                let ghost o_before = todo_views(out@);
                out.push(TodoItem {
                    text: title,
                    state: CheckState::Unchecked,
                    source: string_of(chars_of(src.path.as_str()).as_slice()),
                    project: string_of(chars_of(src.name.as_str()).as_slice()),
                    is_header: true,
                    depth: 0,
                    has_subtasks: false,
                    collapsed: true,
                    is_code_todo: false,
                    flags: 0,
                });
                proof {
                    assert(todo_views(out@) =~= o_before.push(header_row(section_title(kind, sview.name), sview.path, sview.name, true, false)));
                }
                append_copies(out, &src.items);
                proof {
                    assert(todo_views(out@) =~= o_before + seq![header_row(section_title(kind, sview.name), sview.path, sview.name, true, false)] + sview.items);
                }
            }
        }
        i = i + 1;
    }
    proof {
        assert(rs.take(order@.len() as int) =~= rs);
    }
}

/// The order of sources by name.
fn name_order(srcs: &Vec<TodoSource>) -> (r: Vec<usize>)
    ensures
        picks_exactly(r@, Seq::new(srcs@.len(), |i: int| true)),
        sorted_by_key(r@, Seq::new(srcs@.len(), |i: int| 0u8), source_names(source_views(srcs@))),
{
    let mut ranks: Vec<u8> = Vec::new();
    let mut names: Vec<String> = Vec::new();
    let mut pick: Vec<bool> = Vec::new();
    let mut i: usize = 0;
    while i < srcs.len()
        invariant
            i <= srcs@.len(),
            ranks@ =~= Seq::new(i as nat, |k: int| 0u8),
            pick@ =~= Seq::new(i as nat, |k: int| true),
            names@.len() == i,
            forall|k: int| 0 <= k < i ==> (#[trigger] names@[k])@ == srcs@[k].name@,
        decreases srcs.len() - i,
    {
        ranks.push(0);
        pick.push(true);
        names.push(string_of(chars_of(srcs[i].name.as_str()).as_slice()));
        i = i + 1;
    }
    proof {
        assert(string_views(names@) =~= source_names(source_views(srcs@)));
    }
    sort_order(ranks.as_slice(), names.as_slice(), pick.as_slice())
}

/// The global view from the notes root's `TODO.md` (its todos `global`),
/// the home directories' and categories' `TODO.md` files (each group taken
/// in name order), and the projects' public `TODO.md` files (in mapping
/// order).  Returns the rows and the name orders used for the two groups.
pub fn assemble_global(
    root_todo: &str,
    global: Vec<TodoItem>,
    dirs: Vec<TodoSource>,
    cats: Vec<TodoSource>,
    projects: Vec<TodoSource>,
) -> (r: (Vec<TodoItem>, Vec<usize>, Vec<usize>))
    ensures
        picks_exactly(r.1@, Seq::new(dirs@.len(), |i: int| true)),
        sorted_by_key(r.1@, Seq::new(dirs@.len(), |i: int| 0u8), source_names(source_views(dirs@))),
        picks_exactly(r.2@, Seq::new(cats@.len(), |i: int| true)),
        sorted_by_key(r.2@, Seq::new(cats@.len(), |i: int| 0u8), source_names(source_views(cats@))),
        todo_views(r.0@) == global_rows(
            root_todo@,
            todo_views(global@),
            reordered(source_views(dirs@), r.1@),
            reordered(source_views(cats@), r.2@),
            source_views(projects@),
        ),
{
    let dir_order = name_order(&dirs);
    let cat_order = name_order(&cats);
    let mut proj_order: Vec<usize> = Vec::new();
    let mut k: usize = 0;
    while k < projects.len()
        invariant
            k <= projects@.len(),
            proj_order@ =~= Seq::new(k as nat, |i: int| i as usize),
        decreases projects.len() - k,
    {
        proj_order.push(k);
        k = k + 1;
    }
    proof {
        assert(reordered(source_views(projects@), proj_order@) =~= source_views(projects@));
        assert forall|m: int| 0 <= m < dir_order@.len() implies (#[trigger] dir_order@[m] as int) < dirs@.len() by {}
        assert forall|m: int| 0 <= m < cat_order@.len() implies (#[trigger] cat_order@[m] as int) < cats@.len() by {}
    }
    let mut seen: Vec<String> = Vec::new();
    let mut d_rows: Vec<TodoItem> = Vec::new();
    gather_exec(&mut d_rows, &mut seen, 0, &dirs, &dir_order);
    let mut c_rows: Vec<TodoItem> = Vec::new();
    gather_exec(&mut c_rows, &mut seen, 1, &cats, &cat_order);
    let mut p_rows: Vec<TodoItem> = Vec::new();
    gather_exec(&mut p_rows, &mut seen, 2, &projects, &proj_order);
    let gname = vec!['G', 'L', 'O', 'B', 'A', 'L'];
    let gproj = vec!['g', 'l', 'o', 'b', 'a', 'l'];
    proof {
        assert(gname@ =~= seq!['G', 'L', 'O', 'B', 'A', 'L']);
        assert(gproj@ =~= seq!['g', 'l', 'o', 'b', 'a', 'l']);
        assert(string_views(Seq::<String>::empty()) =~= Seq::<Seq<char>>::empty());
    }
    let mut out: Vec<TodoItem> = Vec::new();
    out.push(header_item(ICON_PRIVATE, string_of(gname.as_slice()).as_str(), root_todo, string_of(gproj.as_slice()).as_str(), true));
    append_items(&mut out, global);
    append_items(&mut out, c_rows);
    append_items(&mut out, d_rows);
    append_items(&mut out, p_rows);
    proof {
        assert(todo_views(out@) =~= global_rows(
            root_todo@,
            todo_views(global@),
            reordered(source_views(dirs@), dir_order@),
            reordered(source_views(cats@), cat_order@),
            source_views(projects@),
        ));
    }
    (out, dir_order, cat_order)
}


// ---------------------------------------------------------------------------
// Saving and adding
// ---------------------------------------------------------------------------

/// The files to write back: the source of every todo that is not a code
/// TODO, once each, in first-seen order, skipping a source whose resolved
/// path (`canonical[i]` for row `i`) was already taken.
pub open spec fn save_plan(s: Seq<TodoView>, canonical: Seq<Seq<char>>) -> (Seq<Seq<char>>, Seq<Seq<char>>)
    decreases s.len(),
{
    if s.len() == 0 {
        (Seq::empty(), Seq::empty())
    } else {
        let (srcs, seen) = save_plan(s.drop_last(), canonical);
        let it = s.last();
        let c = canonical[s.len() - 1];
        if !it.is_code_todo && !srcs.contains(it.source) {
            if seen.contains(c) {
                (srcs, seen)
            } else {
                (srcs.push(it.source), seen.push(c))
            }
        } else {
            (srcs, seen)
        }
    }
}

/// The files to write back, given each row's resolved source path.
pub fn save_sources(items: &[TodoItem], canonical: &[String]) -> (r: Vec<String>)
    requires
        canonical@.len() == items@.len(),
    ensures
        string_views(r@) == save_plan(todo_views(items@), string_views(canonical@)).0,
{
    let ghost s = todo_views(items@);
    let ghost cv = string_views(canonical@);
    let mut srcs: Vec<String> = Vec::new();
    let mut seen: Vec<String> = Vec::new();
    let mut i: usize = 0;
    while i < items.len()
        invariant
            s == todo_views(items@),
            cv == string_views(canonical@),
            canonical@.len() == items@.len(),
            i <= items@.len(),
            (string_views(srcs@), string_views(seen@)) == save_plan(s.take(i as int), cv),
        decreases items.len() - i,
    {
        proof {
            assert(s.take(i + 1).drop_last() =~= s.take(i as int));
            assert(s.take(i + 1).last() == items@[i as int]@);
            assert(cv[i as int] == canonical@[i as int]@);
        }
        if !items[i].is_code_todo && !seen_contains(&srcs, items[i].source.as_str()) {
            if !seen_contains(&seen, canonical[i].as_str()) {
                let ghost sb = srcs@;
                let ghost cb = seen@;
                seen.push(string_of(chars_of(canonical[i].as_str()).as_slice()));
                srcs.push(string_of(chars_of(items[i].source.as_str()).as_slice()));
                proof {
                    assert(string_views(srcs@) =~= string_views(sb).push(items@[i as int].source@));
                    assert(string_views(seen@) =~= string_views(cb).push(canonical@[i as int]@));
                }
            }
        }
        i = i + 1;
    }
    proof {
        assert(s.take(items@.len() as int) =~= s);
    }
    srcs
}

/// The line a quick add appends for `text`.
pub open spec fn quick_line(text: Seq<char>) -> Seq<char> {
    seq!['-', ' ', '[', ' ', ']', ' '] + text + seq!['\n']
}

/// The text of a `TODO.md` after a quick add: the old text (a new file starts
/// with the `# TODO` heading), a line break when it does not end with one,
/// then `- [ ] text`.
pub open spec fn quick_added_text(content: Option<Seq<char>>, text: Seq<char>) -> Seq<char> {
    let base = match content {
        Some(c) => if c.len() > 0 && c.last() != '\n' {
            c.push('\n')
        } else {
            c
        },
        None => crate::todo::todo_heading(),
    };
    base + quick_line(text)
}

/// Add a todo from the command line to a `TODO.md` whose text is `content`
/// (`None` when the file does not exist yet).  Returns the file's new text and
/// how many todos it then holds.
pub fn quick_add(content: Option<&str>, text: &str) -> (r: (String, usize))
    ensures
        r.0@ == quick_added_text(crate::text::opt_str_view(content), text@),
        r.1 == crate::todo::parsed_todos(r.0@).len(),
{
    let mut out: Vec<char> = match content {
        Some(c) => chars_of(c),
        None => {
            let h = vec!['#', ' ', 'T', 'O', 'D', 'O', '\n', '\n'];
            proof {
                assert(h@ =~= crate::todo::todo_heading());
            }
            h
        },
    };
    if content.is_some() && out.len() > 0 && out[out.len() - 1] != '\n' {
        out.push('\n');
    }
    let ghost base = out@;
    let head = vec!['-', ' ', '[', ' ', ']', ' '];
    append_chars(&mut out, head.as_slice());
    append_chars(&mut out, chars_of(text).as_slice());
    out.push('\n');
    proof {
        assert(head@ =~= seq!['-', ' ', '[', ' ', ']', ' ']);
        assert(out@ =~= base + quick_line(text@));
    }
    let new_text = string_of(out.as_slice());
    let parsed = crate::todo::parse_todos_from_content(new_text.as_str());
    let n = parsed.len();
    proof {
        assert(parsed@.map_values(|p: crate::todo::ParsedTodo| crate::todo::parsed_view(p)).len() == parsed@.len());
    }
    (new_text, n)
}

} // verus!
