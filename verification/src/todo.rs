//! The todo list: items, the markdown format of `TODO.md` (`- [ ] text #tag`,
//! two-space indentation per subtask level), and the states that parents
//! derive from their subtasks.
use vstd::prelude::*;
use crate::tags::{
    law_flags_reload, lemma_suffix_shape, markerless, parse_flags, parsed_flags, serialize_flags,
    serialized_flags, ALL_FLAGS,
};
use crate::text::{
    append_chars, chars_of, free_of, is_ws, lemma_lines_state_line, lemma_trim_plain, lemma_trim_start_skip,
    lines, lines_state, slice_chars, split_lines, starts_with, starts_with_chars, string_of, strip_cr, trim,
    trim_chars, trim_end, trim_start, views,
};

verus! {

/// The three checkbox states: `[ ]`, `[/]` (almost done) and `[x]`.
#[derive(PartialEq, Eq, Structural, Clone, Copy, Debug)]
pub enum CheckState {
    Unchecked,
    Half,
    Checked,
}

/// One row of the todo list: a todo, a section header, or a code TODO.
pub struct TodoItem {
    pub text: String,
    pub state: CheckState,
    /// The `TODO.md` file the item is saved to.
    pub source: String,
    pub project: String,
    pub is_header: bool,
    /// 0 = top-level, 1 = subtask, 2 = sub-subtask.
    pub depth: u8,
    pub has_subtasks: bool,
    pub collapsed: bool,
    pub is_code_todo: bool,
    pub flags: u8,
}

/// The mathematical content of a `TodoItem`.
pub struct TodoView {
    pub text: Seq<char>,
    pub state: CheckState,
    pub source: Seq<char>,
    pub project: Seq<char>,
    pub is_header: bool,
    pub depth: u8,
    pub has_subtasks: bool,
    pub collapsed: bool,
    pub is_code_todo: bool,
    pub flags: u8,
}

impl View for TodoItem {
    type V = TodoView;

    open spec fn view(&self) -> TodoView {
        TodoView {
            text: self.text@,
            state: self.state,
            source: self.source@,
            project: self.project@,
            is_header: self.is_header,
            depth: self.depth,
            has_subtasks: self.has_subtasks,
            collapsed: self.collapsed,
            is_code_todo: self.is_code_todo,
            flags: self.flags,
        }
    }
}

impl Clone for TodoItem {
    fn clone(&self) -> (r: Self)
        ensures
            r@ == self@,
    {
        TodoItem {
            text: self.text.clone(),
            state: self.state,
            source: self.source.clone(),
            project: self.project.clone(),
            is_header: self.is_header,
            depth: self.depth,
            has_subtasks: self.has_subtasks,
            collapsed: self.collapsed,
            is_code_todo: self.is_code_todo,
            flags: self.flags,
        }
    }
}

/// The views of a sequence of items.
pub open spec fn todo_views(s: Seq<TodoItem>) -> Seq<TodoView> {
    s.map_values(|t: TodoItem| t@)
}

// ---------------------------------------------------------------------------
// The TODO.md format
// ---------------------------------------------------------------------------

/// A parsed todo line: text, state, depth, flags.
pub type ParsedTodo = (String, CheckState, u8, u8);

/// The mathematical content of a `ParsedTodo`.
pub open spec fn parsed_view(p: ParsedTodo) -> (Seq<char>, CheckState, u8, u8) {
    (p.0@, p.1, p.2, p.3)
}

/// `- ` after four spaces.
pub open spec fn p_depth2() -> Seq<char> {
    seq![' ', ' ', ' ', ' ', '-', ' ']
}

/// `-` and a tab after four spaces.
pub open spec fn p_depth2_tab() -> Seq<char> {
    seq![' ', ' ', ' ', ' ', '-', '\t']
}

/// `- ` after two spaces.
pub open spec fn p_depth1() -> Seq<char> {
    seq![' ', ' ', '-', ' ']
}

/// `-` and a tab after two spaces.
pub open spec fn p_depth1_tab() -> Seq<char> {
    seq![' ', ' ', '-', '\t']
}

/// The checkbox prefix `- [m] ` with mark `m`.
pub open spec fn box_prefix(m: char) -> Seq<char> {
    seq!['-', ' ', '[', m, ']', ' ']
}

/// Subtask depth of a raw line: four spaces and `-` give 2, two give 1.
pub open spec fn line_depth(line: Seq<char>) -> u8 {
    if starts_with(line, p_depth2()) || starts_with(line, p_depth2_tab()) {
        2
    } else if starts_with(line, p_depth1()) || starts_with(line, p_depth1_tab()) {
        1
    } else {
        0
    }
}

/// The state a trimmed line's checkbox prefix stands for, if it has one.
pub open spec fn line_state(t: Seq<char>) -> Option<CheckState> {
    if starts_with(t, box_prefix(' ')) {
        Some(CheckState::Unchecked)
    } else if starts_with(t, box_prefix('/')) {
        Some(CheckState::Half)
    } else if starts_with(t, box_prefix('x')) || starts_with(t, box_prefix('X')) {
        Some(CheckState::Checked)
    } else {
        None
    }
}

/// The todo a line holds, if it is a checkbox line.
pub open spec fn parse_line(line: Seq<char>) -> Option<(Seq<char>, CheckState, u8, u8)> {
    let t = trim(line);
    match line_state(t) {
        Some(st) => {
            let (text, flags) = parsed_flags(t.skip(6));
            Some((text, st, line_depth(line), flags))
        },
        None => None,
    }
}

/// The todos of a sequence of lines, in order.
pub open spec fn parse_lines(ls: Seq<Seq<char>>) -> Seq<(Seq<char>, CheckState, u8, u8)>
    decreases ls.len(),
{
    if ls.len() == 0 {
        Seq::empty()
    } else {
        match parse_line(ls.last()) {
            Some(p) => parse_lines(ls.drop_last()).push(p),
            None => parse_lines(ls.drop_last()),
        }
    }
}

/// `parse_todos_from_content`: the todos of a `TODO.md` text.
pub open spec fn parsed_todos(content: Seq<char>) -> Seq<(Seq<char>, CheckState, u8, u8)> {
    parse_lines(lines(content))
}

/// The checkbox mark of a state.
pub open spec fn state_mark(s: CheckState) -> char {
    match s {
        CheckState::Unchecked => ' ',
        CheckState::Half => '/',
        CheckState::Checked => 'x',
    }
}

/// Two spaces per level of depth.
pub open spec fn indent(d: nat) -> Seq<char>
    decreases d,
{
    if d == 0 {
        Seq::empty()
    } else {
        indent((d - 1) as nat) + seq![' ', ' ']
    }
}

/// The line written for a todo: indentation, checkbox, text, tag markers.
pub open spec fn item_line(v: TodoView) -> Seq<char> {
    indent(v.depth as nat) + seq!['-', ' ', '[', state_mark(v.state), ']', ' '] + v.text
        + serialized_flags(v.flags) + seq!['\n']
}

/// The item is written to the file `source`: a todo (not a header, not a
/// code TODO) of that file.
pub open spec fn saved_to(v: TodoView, source: Seq<char>) -> bool {
    !v.is_header && !v.is_code_todo && v.source == source
}

/// The lines of the items saved to `source`, in order.
pub open spec fn item_lines(s: Seq<TodoView>, source: Seq<char>) -> Seq<char>
    decreases s.len(),
{
    if s.len() == 0 {
        Seq::empty()
    } else if saved_to(s.last(), source) {
        item_lines(s.drop_last(), source) + item_line(s.last())
    } else {
        item_lines(s.drop_last(), source)
    }
}

/// The heading every `TODO.md` starts with.
pub open spec fn todo_heading() -> Seq<char> {
    seq!['#', ' ', 'T', 'O', 'D', 'O', '\n', '\n']
}

/// `serialize_todos_for_file`: the `TODO.md` text for `source`.
pub open spec fn serialized_todos(s: Seq<TodoView>, source: Seq<char>) -> Seq<char> {
    todo_heading() + item_lines(s, source)
}

/// The state a line's checkbox stands for.
fn line_state_exec(t: &[char]) -> (r: Option<CheckState>)
    ensures
        r == line_state(t@),
{
    let unchecked = vec!['-', ' ', '[', ' ', ']', ' '];
    let half = vec!['-', ' ', '[', '/', ']', ' '];
    let checked = vec!['-', ' ', '[', 'x', ']', ' '];
    let checked_upper = vec!['-', ' ', '[', 'X', ']', ' '];
    proof {
        assert(unchecked@ =~= box_prefix(' '));
        assert(half@ =~= box_prefix('/'));
        assert(checked@ =~= box_prefix('x'));
        assert(checked_upper@ =~= box_prefix('X'));
    }
    if starts_with_chars(t, unchecked.as_slice()) {
        Some(CheckState::Unchecked)
    } else if starts_with_chars(t, half.as_slice()) {
        Some(CheckState::Half)
    } else if starts_with_chars(t, checked.as_slice()) || starts_with_chars(t, checked_upper.as_slice()) {
        Some(CheckState::Checked)
    } else {
        None
    }
}

/// Subtask depth of a raw line.
fn line_depth_exec(line: &[char]) -> (r: u8)
    ensures
        r == line_depth(line@),
{
    let d2 = vec![' ', ' ', ' ', ' ', '-', ' '];
    let d2t = vec![' ', ' ', ' ', ' ', '-', '\t'];
    let d1 = vec![' ', ' ', '-', ' '];
    let d1t = vec![' ', ' ', '-', '\t'];
    proof {
        assert(d2@ =~= p_depth2());
        assert(d2t@ =~= p_depth2_tab());
        assert(d1@ =~= p_depth1());
        assert(d1t@ =~= p_depth1_tab());
    }
    if starts_with_chars(line, d2.as_slice()) || starts_with_chars(line, d2t.as_slice()) {
        2
    } else if starts_with_chars(line, d1.as_slice()) || starts_with_chars(line, d1t.as_slice()) {
        1
    } else {
        0
    }
}

/// The todos of a `TODO.md` text: (text, state, depth, flags) for every
/// checkbox line, in order.
pub fn parse_todos_from_content(content: &str) -> (r: Vec<ParsedTodo>)
    ensures
        r@.map_values(|p: ParsedTodo| parsed_view(p)) == parsed_todos(content@),
{
    let c = chars_of(content);
    let ls = split_lines(c.as_slice());
    let mut out: Vec<ParsedTodo> = Vec::new();
    let mut i: usize = 0;
    while i < ls.len()
        invariant
            i <= ls@.len(),
            views(ls@) == lines(content@),
            out@.map_values(|p: ParsedTodo| parsed_view(p)) == parse_lines(views(ls@).take(i as int)),
        decreases ls.len() - i,
    {
        proof {
            assert(views(ls@).take(i + 1).drop_last() =~= views(ls@).take(i as int));
            assert(views(ls@).take(i + 1).last() == ls@[i as int]@);
        }
        let line = ls[i].as_slice();
        let depth = line_depth_exec(line);
        let t = trim_chars(line);
        match line_state_exec(t.as_slice()) {
            Some(st) => {
                let raw = slice_chars(t.as_slice(), 6, t.len());
                proof {
                    assert(raw@ =~= t@.skip(6));
                }
                let raw_s = string_of(raw.as_slice());
                let (text, flags) = parse_flags(raw_s.as_str());
                let ghost before = out@.map_values(|p: ParsedTodo| parsed_view(p));
                out.push((text, st, depth, flags));
                proof {
                    assert(out@.map_values(|p: ParsedTodo| parsed_view(p)) =~= before.push(
                        parsed_view(out@.last()),
                    ));
                }
            },
            None => {},
        }
        i = i + 1;
    }
    proof {
        assert(views(ls@).take(ls@.len() as int) =~= views(ls@));
    }
    out
}

/// `  ` repeated `d` times.
fn indent_exec(d: u8) -> (r: Vec<char>)
    ensures
        r@ == indent(d as nat),
{
    let mut r: Vec<char> = Vec::new();
    let mut k: u8 = 0;
    while k < d
        invariant
            k <= d,
            r@ == indent(k as nat),
        decreases d - k,
    {
        r.push(' ');
        r.push(' ');
        k = k + 1;
        proof {
            assert(indent(k as nat) == indent((k - 1) as nat) + seq![' ', ' ']);
        }
    }
    r
}

/// The `TODO.md` text for the items saved to `source`: the `# TODO` heading
/// and one line per todo of that file, in order.
pub fn serialize_todos_for_file(items: &[TodoItem], source: &str) -> (r: String)
    ensures
        r@ == serialized_todos(todo_views(items@), source@),
{
    let mut out: Vec<char> = vec!['#', ' ', 'T', 'O', 'D', 'O', '\n', '\n'];
    proof {
        assert(out@ =~= todo_heading());
    }
    let src = chars_of(source);
    let mut i: usize = 0;
    while i < items.len()
        invariant
            i <= items@.len(),
            src@ == source@,
            out@ == todo_heading() + item_lines(todo_views(items@).take(i as int), source@),
        decreases items.len() - i,
    {
        let ghost s = todo_views(items@);
        proof {
            assert(s.take(i + 1).drop_last() =~= s.take(i as int));
            assert(s.take(i + 1).last() == items@[i as int]@);
        }
        let item = &items[i];
        let item_src = chars_of(item.source.as_str());
        let same = item_src.len() == src.len() && starts_with_chars(item_src.as_slice(), src.as_slice());
        proof {
            if same {
                assert(item_src@ =~= src@);
            }
            if item_src@ == src@ {
                assert(item_src@.subrange(0, src@.len() as int) =~= src@);
            }
        }
        if !item.is_header && !item.is_code_todo && same {
            let ghost before = out@;
            let ind = indent_exec(item.depth);
            append_chars(&mut out, ind.as_slice());
            let mark = match item.state {
                CheckState::Unchecked => ' ',
                CheckState::Half => '/',
                CheckState::Checked => 'x',
            };
            let boxp = vec!['-', ' ', '[', mark, ']', ' '];
            append_chars(&mut out, boxp.as_slice());
            let text = chars_of(item.text.as_str());
            append_chars(&mut out, text.as_slice());
            let fl = serialize_flags(item.flags);
            let flc = chars_of(fl.as_str());
            append_chars(&mut out, flc.as_slice());
            out.push('\n');
            proof {
                assert(out@ =~= before + item_line(items@[i as int]@));
            }
        }
        i = i + 1;
    }
    proof {
        assert(todo_views(items@).take(items@.len() as int) =~= todo_views(items@));
    }
    string_of(out.as_slice())
}

// ---------------------------------------------------------------------------
// Subtasks and derived states
// ---------------------------------------------------------------------------

/// The first index at or after `j` that leaves the scope of item `i`: the
/// end of the list or an item no deeper than `i` (headers have depth 0).
pub open spec fn scope_end(s: Seq<TodoView>, i: int, j: int) -> int
    decreases s.len() - j,
{
    if j >= s.len() || s[j].depth <= s[i].depth {
        j
    } else {
        scope_end(s, i, j + 1)
    }
}

/// (direct children, checked direct children) of item `i` among the
/// indices `i+1 .. k`.
pub open spec fn child_counts(s: Seq<TodoView>, i: int, k: int) -> (int, int)
    decreases k - i,
{
    if k <= i + 1 {
        (0, 0)
    } else {
        let (t, c) = child_counts(s, i, k - 1);
        if s[k - 1].depth == s[i].depth + 1 {
            (t + 1, if s[k - 1].state == CheckState::Checked { c + 1 } else { c })
        } else {
            (t, c)
        }
    }
}

/// (direct subtasks, checked direct subtasks) of item `i`.
pub open spec fn subtask_counts(s: Seq<TodoView>, i: int) -> (int, int) {
    child_counts(s, i, scope_end(s, i, i + 1))
}

/// The state a parent with `t` subtasks, `c` of them checked, takes.
pub open spec fn summary_state(t: int, c: int) -> CheckState {
    if c == 0 {
        CheckState::Unchecked
    } else if c == t {
        CheckState::Checked
    } else {
        CheckState::Half
    }
}

/// Item `i` of `s` agrees with its subtasks: it has subtasks exactly when
/// there is a direct subtask, and then its state summarizes theirs.
pub open spec fn derived_at(s: Seq<TodoView>, i: int) -> bool {
    let (t, c) = subtask_counts(s, i);
    &&& s[i].has_subtasks == (t > 0)
    &&& t > 0 ==> s[i].state == summary_state(t, c)
}

/// `b` is `a` with only `state` and `has_subtasks` possibly changed.
pub open spec fn same_but_status(a: TodoView, b: TodoView) -> bool {
    &&& a.text == b.text
    &&& a.source == b.source
    &&& a.project == b.project
    &&& a.is_header == b.is_header
    &&& a.depth == b.depth
    &&& a.collapsed == b.collapsed
    &&& a.is_code_todo == b.is_code_todo
    &&& a.flags == b.flags
}

/// Depths stay below 255, so `depth + 1` is a depth.
pub open spec fn depths_bounded(s: Seq<TodoView>) -> bool {
    forall|i: int| 0 <= i < s.len() ==> #[trigger] s[i].depth < 255
}

pub proof fn lemma_scope_frame(s1: Seq<TodoView>, s2: Seq<TodoView>, i: int, j: int)
    requires
        s1.len() == s2.len(),
        0 <= i < j,
        s1[i].depth == s2[i].depth,
        forall|k: int| i < k < s1.len() ==> s1[k].depth == #[trigger] s2[k].depth,
    ensures
        scope_end(s1, i, j) == scope_end(s2, i, j),
    decreases s1.len() - j,
{
    if j < s1.len() && s1[j].depth > s1[i].depth {
        lemma_scope_frame(s1, s2, i, j + 1);
    }
}

/// `s1` and `s2` have the same depths and states after index `i`.
pub open spec fn agree_after(s1: Seq<TodoView>, s2: Seq<TodoView>, i: int) -> bool {
    forall|m: int| i < m < s1.len() ==> s1[m].depth == #[trigger] s2[m].depth && s1[m].state == s2[m].state
}

pub proof fn lemma_counts_frame(s1: Seq<TodoView>, s2: Seq<TodoView>, i: int, k: int)
    requires
        s1.len() == s2.len(),
        0 <= i < s1.len(),
        k <= s1.len(),
        s1[i].depth == s2[i].depth,
        agree_after(s1, s2, i),
    ensures
        child_counts(s1, i, k) == child_counts(s2, i, k),
    decreases k - i,
{
    if k > i + 1 {
        lemma_counts_frame(s1, s2, i, k - 1);
    }
}

pub proof fn lemma_scope_bounds(s: Seq<TodoView>, i: int, j: int)
    requires
        0 <= i < j,
        j <= s.len(),
    ensures
        j <= scope_end(s, i, j) <= s.len(),
        forall|k: int| j <= k < scope_end(s, i, j) ==> #[trigger] s[k].depth > s[i].depth,
        scope_end(s, i, j) < s.len() ==> s[scope_end(s, i, j)].depth <= s[i].depth,
    decreases s.len() - j,
{
    if j < s.len() && s[j].depth > s[i].depth {
        lemma_scope_bounds(s, i, j + 1);
    }
}

/// What deriving makes of a list `s`: `a` changes only statuses, keeps the
/// headers, has every todo agree with its subtasks, and leaves the state of
/// a todo without subtasks alone.
pub open spec fn derived_from(s: Seq<TodoView>, a: Seq<TodoView>) -> bool {
    &&& a.len() == s.len()
    &&& forall|i: int| 0 <= i < a.len() ==> same_but_status(#[trigger] s[i], a[i])
    &&& forall|i: int| 0 <= i < a.len() && (#[trigger] s[i]).is_header ==> a[i] == s[i]
    &&& forall|i: int| 0 <= i < a.len() && !(#[trigger] s[i]).is_header ==> derived_at(a, i)
    &&& forall|i: int| 0 <= i < a.len() && !(#[trigger] s[i]).is_header && subtask_counts(a, i).0 == 0 ==> a[i].state == s[i].state
}

/// Recalculate `has_subtasks` and parent check states from direct subtasks,
/// from the last item to the first, so each parent sees its subtasks'
/// final states. Headers are left alone.
pub fn derive_parent_states(items: &mut Vec<TodoItem>)
    requires
        depths_bounded(todo_views(old(items)@)),
    ensures
        final(items)@.len() == old(items)@.len(),
        forall|i: int|
            0 <= i < final(items)@.len() ==> same_but_status(
                #[trigger] old(items)@[i]@,
                final(items)@[i]@,
            ),
        forall|i: int|
            0 <= i < final(items)@.len() && old(items)@[i].is_header ==> #[trigger] final(items)@[i]@
                == old(items)@[i]@,
        forall|i: int|
            0 <= i < final(items)@.len() && !old(items)@[i].is_header ==> #[trigger] derived_at(
                todo_views(final(items)@),
                i,
            ),
        forall|i: int|
            0 <= i < final(items)@.len() && !old(items)@[i].is_header && subtask_counts(
                todo_views(final(items)@),
                i,
            ).0 == 0 ==> #[trigger] final(items)@[i].state == old(items)@[i].state,
        derived_from(todo_views(old(items)@), todo_views(final(items)@)),
{
    let len = items.len();
    let mut i: usize = len;
    while i > 0
        invariant
            i <= len,
            items@.len() == len,
            len == old(items)@.len(),
            depths_bounded(todo_views(old(items)@)),
            forall|k: int| 0 <= k < len ==> same_but_status(#[trigger] old(items)@[k]@, items@[k]@),
            forall|k: int| 0 <= k < i ==> #[trigger] items@[k]@ == old(items)@[k]@,
            forall|k: int| 0 <= k < len && old(items)@[k].is_header ==> #[trigger] items@[k]@ == old(items)@[k]@,
            forall|k: int|
                i <= k < len && !old(items)@[k].is_header ==> #[trigger] derived_at(todo_views(items@), k),
            forall|k: int|
                i <= k < len && !old(items)@[k].is_header && subtask_counts(todo_views(items@), k).0
                    == 0 ==> #[trigger] items@[k].state == old(items)@[k].state,
        decreases i,
    {
        i = i - 1;
        let ghost before = todo_views(items@);
        if !items[i].is_header {
            let parent_depth = items[i].depth;
            proof {
                assert(old(items)@[i as int]@ == items@[i as int]@);
                assert(todo_views(old(items)@)[i as int].depth < 255);
            }
            let mut total: usize = 0;
            let mut checked: usize = 0;
            let mut j: usize = i + 1;
            proof {
                lemma_scope_bounds(before, i as int, i + 1);
            }
            while j < len && items[j].depth > parent_depth
                invariant
                    i < j <= len,
                    items@.len() == len,
                    before == todo_views(items@),
                    parent_depth == before[i as int].depth,
                    parent_depth < 255,
                    scope_end(before, i as int, i + 1) == scope_end(before, i as int, j as int),
                    (total as int, checked as int) == child_counts(before, i as int, j as int),
                    total <= j - i,
                    checked <= total,
                decreases len - j,
            {
                proof {
                    assert(before[j as int] == items@[j as int]@);
                }
                if items[j].depth == parent_depth + 1 {
                    total = total + 1;
                    if items[j].state == CheckState::Checked {
                        checked = checked + 1;
                    }
                }
                j = j + 1;
            }
            proof {
                if j < len {
                    assert(before[j as int] == items@[j as int]@);
                }
                assert(scope_end(before, i as int, j as int) == j);
            }
            items[i].has_subtasks = total > 0;
            if total > 0 {
                items[i].state = if checked == 0 {
                    CheckState::Unchecked
                } else if checked == total {
                    CheckState::Checked
                } else {
                    CheckState::Half
                };
            }
            proof {
                let after = todo_views(items@);
                assert forall|k: int| 0 <= k < len && k != i implies #[trigger] after[k] == before[k] by {}
                assert(after[i as int].depth == before[i as int].depth);
                lemma_scope_frame(before, after, i as int, i + 1);
                assert(agree_after(before, after, i as int));
                lemma_counts_frame(before, after, i as int, j as int);
                assert forall|k: int|
                    i <= k < len && !old(items)@[k].is_header implies #[trigger] derived_at(after, k) by {
                    if k > i {
                        assert(derived_at(before, k));
                        assert forall|m: int| k < m < len implies before[m].depth == #[trigger] after[m].depth && before[m].state == after[m].state by {}
                        lemma_scope_frame(before, after, k, k + 1);
                        if k + 1 <= len {
                            lemma_scope_bounds(before, k, k + 1);
                        }
                        lemma_counts_frame(before, after, k, scope_end(before, k, k + 1));
                    }
                }
                assert forall|k: int|
                    i <= k < len && !old(items)@[k].is_header && subtask_counts(after, k).0 == 0 implies #[trigger] items@[k].state == old(items)@[k].state by {
                    if k > i {
                        assert forall|m: int| k < m < len implies before[m].depth == #[trigger] after[m].depth && before[m].state == after[m].state by {}
                        lemma_scope_frame(before, after, k, k + 1);
                        if k + 1 <= len {
                            lemma_scope_bounds(before, k, k + 1);
                        }
                        lemma_counts_frame(before, after, k, scope_end(before, k, k + 1));
                    }
                }
            }
        }
    }
}

/// OR of the flags of the items `j .. k` (the items after header `j - 1`
/// up to the next header).
pub open spec fn section_flags(s: Seq<TodoView>, from: int, k: int) -> u8
    decreases k - from,
{
    if k <= from {
        0u8
    } else {
        section_flags(s, from, k - 1) | s[k - 1].flags
    }
}

/// The first header at or after `j`, or the end of the list.
pub open spec fn next_header(s: Seq<TodoView>, j: int) -> int
    decreases s.len() - j,
{
    if j >= s.len() || s[j].is_header {
        j
    } else {
        next_header(s, j + 1)
    }
}

/// Aggregate flags from children onto headers: every header's flags become
/// the OR of the flags of the items up to the next header.
pub fn derive_header_flags(items: &mut Vec<TodoItem>)
    ensures
        final(items)@.len() == old(items)@.len(),
        forall|i: int|
            0 <= i < final(items)@.len() && !old(items)@[i].is_header ==> #[trigger] final(items)@[i]@
                == old(items)@[i]@,
        forall|i: int|
            0 <= i < final(items)@.len() && old(items)@[i].is_header ==> {
                &&& #[trigger] final(items)@[i]@ == (TodoView { flags: final(items)@[i].flags, ..old(items)@[i]@ })
                &&& final(items)@[i].flags == section_flags(
                    todo_views(old(items)@),
                    i + 1,
                    next_header(todo_views(old(items)@), i + 1),
                )
            },
{
    let len = items.len();
    let ghost orig = todo_views(items@);
    let mut i: usize = 0;
    while i < len
        invariant
            i <= len,
            items@.len() == len,
            orig == todo_views(old(items)@),
            orig.len() == len,
            forall|k: int| 0 <= k < len && !orig[k].is_header ==> #[trigger] items@[k]@ == orig[k],
            forall|k: int| i <= k < len ==> #[trigger] items@[k]@ == orig[k],
            forall|k: int|
                0 <= k < i && orig[k].is_header ==> {
                    &&& #[trigger] items@[k]@ == (TodoView { flags: items@[k].flags, ..orig[k] })
                    &&& items@[k].flags == section_flags(orig, k + 1, next_header(orig, k + 1))
                },
        decreases len - i,
    {
        if items[i].is_header {
            let mut agg: u8 = 0;
            let mut j: usize = i + 1;
            while j < len && !items[j].is_header
                invariant
                    i < j <= len,
                    items@.len() == len,
                    orig.len() == len,
                    forall|k: int| i <= k < len ==> #[trigger] items@[k]@ == orig[k],
                    orig == todo_views(old(items)@),
                    forall|k: int| 0 <= k < len && !orig[k].is_header ==> #[trigger] items@[k]@ == orig[k],
                    forall|k: int|
                        0 <= k < i && orig[k].is_header ==> {
                            &&& #[trigger] items@[k]@ == (TodoView { flags: items@[k].flags, ..orig[k] })
                            &&& items@[k].flags == section_flags(orig, k + 1, next_header(orig, k + 1))
                        },
                    agg == section_flags(orig, i + 1, j as int),
                    next_header(orig, i + 1) == next_header(orig, j as int),
                decreases len - j,
            {
                proof {
                    assert(items@[j as int]@ == orig[j as int]);
                }
                agg = agg | items[j].flags;
                j = j + 1;
            }
            proof {
                if j < len {
                    assert(items@[j as int]@ == orig[j as int]);
                }
                assert(items@[i as int]@ == orig[i as int]);
            }
            let ghost prev = items@;
            items[i].flags = agg;
            proof {
                assert forall|k: int| 0 <= k < len && k != i implies #[trigger] items@[k] == prev[k] by {}
                assert(items@[i as int]@ =~= (TodoView { flags: agg, ..orig[i as int] }));
            }
        }
        i = i + 1;
    }
}

} // verus!

verus! {

/// The item a parsed line becomes before subtask states are derived.
pub open spec fn base_item(p: (Seq<char>, CheckState, u8, u8), source: Seq<char>, project: Seq<char>) -> TodoView {
    TodoView {
        text: p.0,
        state: p.1,
        source,
        project,
        is_header: false,
        depth: p.2,
        has_subtasks: false,
        collapsed: false,
        is_code_todo: false,
        flags: p.3,
    }
}

proof fn lemma_parse_lines_depth(ls: Seq<Seq<char>>)
    ensures
        forall|i: int| 0 <= i < parse_lines(ls).len() ==> #[trigger] parse_lines(ls)[i].2 <= 2,
    decreases ls.len(),
{
    if ls.len() > 0 {
        lemma_parse_lines_depth(ls.drop_last());
        let prev = parse_lines(ls.drop_last());
        match parse_line(ls.last()) {
            Some(p) => {
                assert(p.2 == line_depth(ls.last()));
                assert forall|i: int| 0 <= i < parse_lines(ls).len() implies #[trigger] parse_lines(ls)[i].2 <= 2 by {
                    if i < prev.len() {
                        assert(parse_lines(ls)[i] == prev[i]);
                    }
                }
            },
            None => {},
        }
    }
}

/// The items of a `TODO.md` text saved to `source`: one per checkbox line, in
/// order, with `has_subtasks` and parent states derived from subtasks.
pub fn todo_items_from_content(content: &str, source: &str, project: &str) -> (r: Vec<TodoItem>)
    ensures
        r@.len() == parsed_todos(content@).len(),
        forall|i: int|
            0 <= i < r@.len() ==> same_but_status(
                base_item(parsed_todos(content@)[i], source@, project@),
                #[trigger] r@[i]@,
            ),
        forall|i: int| 0 <= i < r@.len() ==> #[trigger] derived_at(todo_views(r@), i),
        forall|i: int|
            0 <= i < r@.len() && subtask_counts(todo_views(r@), i).0 == 0 ==> #[trigger] r@[i].state
                == parsed_todos(content@)[i].1,
{
    let parsed = parse_todos_from_content(content);
    let ghost ps = parsed_todos(content@);
    proof {
        lemma_parse_lines_depth(lines(content@));
    }
    let mut items: Vec<TodoItem> = Vec::new();
    let mut i: usize = 0;
    while i < parsed.len()
        invariant
            i <= parsed@.len(),
            parsed@.map_values(|p: ParsedTodo| parsed_view(p)) == ps,
            forall|k: int| 0 <= k < ps.len() ==> #[trigger] ps[k].2 <= 2,
            items@.len() == i,
            forall|k: int|
                0 <= k < i ==> same_but_status(base_item(ps[k], source@, project@), #[trigger] items@[k]@),
            forall|k: int| 0 <= k < i ==> #[trigger] items@[k].state == ps[k].1,
            forall|k: int| 0 <= k < i ==> !(#[trigger] items@[k]).is_header,
        decreases parsed.len() - i,
    {
        let text = parsed[i].0.clone();
        let state = parsed[i].1;
        let depth = parsed[i].2;
        let flags = parsed[i].3;
        proof {
            assert(parsed_view(parsed@[i as int]) == ps[i as int]);
        }
        if depth > 0 {
            let mut k: usize = items.len();
            while k > 0
                invariant
                    k <= items@.len(),
                    items@.len() == i,
                    i < ps.len(),
                    forall|m: int|
                        0 <= m < i ==> same_but_status(base_item(ps[m], source@, project@), #[trigger] items@[m]@),
                    forall|m: int| 0 <= m < i ==> #[trigger] items@[m].state == ps[m].1,
                    forall|m: int| 0 <= m < i ==> !(#[trigger] items@[m]).is_header,
                decreases k,
            {
                k = k - 1;
                if !items[k].is_header && items[k].depth < depth {
                    let ghost prev = items@;
                    items[k].has_subtasks = true;
                    proof {
                        assert forall|m: int| 0 <= m < i && m != k implies #[trigger] items@[m] == prev[m] by {}
                        assert(same_but_status(base_item(ps[k as int], source@, project@), prev[k as int]@));
                        assert(same_but_status(base_item(ps[k as int], source@, project@), items@[k as int]@));
                    }
                    break;
                }
            }
        }
        let item = TodoItem {
            text,
            state,
            source: string_of(chars_of(source).as_slice()),
            project: string_of(chars_of(project).as_slice()),
            is_header: false,
            depth,
            has_subtasks: false,
            collapsed: false,
            is_code_todo: false,
            flags,
        };
        items.push(item);
        i = i + 1;
    }
    let ghost built = items@;
    proof {
        assert forall|k: int| 0 <= k < items@.len() implies #[trigger] todo_views(items@)[k].depth < 255 by {
            assert(items@[k].depth == ps[k].2);
        }
    }
    derive_parent_states(&mut items);
    proof {
        assert forall|k: int| 0 <= k < items@.len() implies !(#[trigger] built[k]).is_header by {}
        assert forall|k: int| 0 <= k < items@.len() implies same_but_status(
            base_item(ps[k], source@, project@),
            #[trigger] items@[k]@,
        ) by {
            assert(same_but_status(built[k]@, items@[k]@));
            assert(same_but_status(base_item(ps[k], source@, project@), built[k]@));
        }
    }
    items
}

// ---------------------------------------------------------------------------
// Reading back a saved file
// ---------------------------------------------------------------------------

/// A todo that its line stores faithfully: at most two levels deep, a known
/// flag set, and a text on one line, without blanks at its ends or tag
/// markers, not empty unless some tag follows it.
pub open spec fn storable(v: TodoView) -> bool {
    &&& v.depth <= 2
    &&& v.flags <= ALL_FLAGS
    &&& free_of(v.text, '\n')
    &&& v.text.len() > 0 ==> !is_ws(v.text[0]) && !is_ws(v.text.last())
    &&& markerless(v.text)
    &&& v.text.len() > 0 || v.flags != 0
}

/// What the file for `source` stores of the items saved to it: text, state,
/// depth and flags, in order.
pub open spec fn saved_entries(s: Seq<TodoView>, source: Seq<char>) -> Seq<(Seq<char>, CheckState, u8, u8)>
    decreases s.len(),
{
    if s.len() == 0 {
        Seq::empty()
    } else if saved_to(s.last(), source) {
        saved_entries(s.drop_last(), source).push((s.last().text, s.last().state, s.last().depth, s.last().flags))
    } else {
        saved_entries(s.drop_last(), source)
    }
}

/// The line written for a todo, without its line break.
spec fn item_body(v: TodoView) -> Seq<char> {
    indent(v.depth as nat) + box_prefix(state_mark(v.state)) + (v.text + serialized_flags(v.flags))
}

proof fn lemma_item_body(v: TodoView)
    requires
        storable(v),
    ensures
        item_line(v) == item_body(v) + seq!['\n'],
        free_of(item_body(v), '\n'),
        strip_cr(item_body(v)) == item_body(v),
        parse_line(item_body(v)) == Some((v.text, v.state, v.depth, v.flags)),
{
    let ind = indent(v.depth as nat);
    let bx = box_prefix(state_mark(v.state));
    let tail = v.text + serialized_flags(v.flags);
    let body = item_body(v);
    let d = v.depth as int;
    lemma_suffix_shape(v.flags);
    assert(indent(0) =~= Seq::<char>::empty());
    assert(indent(1) =~= seq![' ', ' ']);
    assert(indent(2) =~= seq![' ', ' ', ' ', ' ']);
    assert(ind.len() == 2 * d);
    assert forall|t: int| 0 <= t < ind.len() implies ind[t] == ' ' by {}
    assert(item_line(v) =~= body + seq!['\n']);
    assert(tail.len() > 0 && !is_ws(tail.last())) by {
        if v.flags != 0 {
            assert(tail.last() == serialized_flags(v.flags).last());
        } else {
            assert(tail =~= v.text);
        }
    }
    assert(free_of(tail, '\n')) by {
        assert forall|t: int| 0 <= t < tail.len() implies tail[t] != '\n' by {
            if t < v.text.len() {
                assert(tail[t] == v.text[t]);
            } else {
                assert(tail[t] == serialized_flags(v.flags)[t - v.text.len()]);
            }
        }
    }
    assert(free_of(body, '\n')) by {
        assert forall|t: int| 0 <= t < body.len() implies body[t] != '\n' by {
            if t < ind.len() {
                assert(body[t] == ind[t]);
            } else if t < ind.len() + 6 {
                assert(body[t] == bx[t - ind.len()]);
            } else {
                assert(body[t] == tail[t - ind.len() - 6]);
            }
        }
    }
    assert(body.last() == tail.last());
    let t = bx + tail;
    assert(body.skip(2 * d) =~= t);
    lemma_trim_start_skip(body, 2 * d);
    assert(trim_start(t) == t);
    lemma_trim_plain(t);
    assert(t.last() == tail.last());
    assert(trim(body) == t);
    assert(t.skip(6) =~= tail);
    law_flags_reload(v.text, v.flags);
    assert(starts_with(t, bx)) by {
        assert(t.subrange(0, 6) =~= bx);
    }
    assert(line_state(t) == Some(v.state));
    assert(line_depth(body) == v.depth) by {
        if d == 2 {
            assert(body.subrange(0, 6) =~= p_depth2());
        } else if d == 1 {
            assert(body.subrange(0, 4) =~= p_depth1());
            assert(body[2] == '-');
        } else {
            assert(body[0] == '-');
        }
    }
}

proof fn lemma_heading_lines()
    ensures
        lines_state(todo_heading()) == (seq![seq!['#', ' ', 'T', 'O', 'D', 'O'], Seq::<char>::empty()], Seq::<char>::empty()),
        parse_lines(lines_state(todo_heading()).0) == Seq::<(Seq<char>, CheckState, u8, u8)>::empty(),
{
    let h1 = seq!['#', ' ', 'T', 'O', 'D', 'O'];
    let e = Seq::<char>::empty();
    assert(free_of(h1, '\n'));
    assert(lines_state(e) == (Seq::<Seq<char>>::empty(), e));
    assert(e + h1 + seq!['\n'] =~= h1 + seq!['\n']);
    lemma_lines_state_line(e, h1);
    assert(todo_heading() =~= h1 + seq!['\n'] + e + seq!['\n']);
    lemma_lines_state_line(h1 + seq!['\n'], e);
    assert(strip_cr(h1) == h1);
    assert(strip_cr(e) == e);
    assert(seq![h1, e].drop_last() =~= seq![h1]);
    assert(seq![h1].drop_last() =~= Seq::<Seq<char>>::empty());
    lemma_trim_plain(h1);
    assert(parse_line(h1) is None);
    assert(trim(e) =~= e);
    assert(parse_line(e) is None);
    assert(Seq::<Seq<char>>::empty().push(h1).push(e) =~= seq![h1, e]);
    assert(parse_lines(Seq::<Seq<char>>::empty()) == Seq::<(Seq<char>, CheckState, u8, u8)>::empty());
    assert(parse_lines(seq![h1]) == parse_lines(Seq::<Seq<char>>::empty()));
    assert(parse_lines(seq![h1, e]) == parse_lines(seq![h1]));
}

proof fn lemma_serialized_lines(s: Seq<TodoView>, source: Seq<char>)
    requires
        forall|i: int| 0 <= i < s.len() && saved_to(s[i], source) ==> storable(#[trigger] s[i]),
    ensures
        lines_state(serialized_todos(s, source)).1.len() == 0,
        parse_lines(lines_state(serialized_todos(s, source)).0) == saved_entries(s, source),
    decreases s.len(),
{
    if s.len() == 0 {
        lemma_heading_lines();
        assert(serialized_todos(s, source) =~= todo_heading());
    } else {
        let t = s.drop_last();
        assert forall|i: int| 0 <= i < t.len() && saved_to(t[i], source) implies storable(#[trigger] t[i]) by {
            assert(t[i] == s[i]);
        }
        lemma_serialized_lines(t, source);
        let v = s.last();
        if saved_to(v, source) {
            assert(storable(s[s.len() - 1]));
            lemma_item_body(v);
            let prev = serialized_todos(t, source);
            assert(serialized_todos(s, source) =~= prev + item_body(v) + seq!['\n']);
            lemma_lines_state_line(prev, item_body(v));
            let ls = lines_state(prev).0;
            assert(ls.push(item_body(v)).drop_last() =~= ls);
        } else {
            assert(serialized_todos(s, source) =~= serialized_todos(t, source));
        }
    }
}

/// Parsing the file that `serialize_todos_for_file` wrote for `source` gives
/// back, in order, the text, state, depth and tags of every todo saved to
/// that file, for todos that their line stores faithfully.
pub proof fn law_todo_file_reload(s: Seq<TodoView>, source: Seq<char>)
    requires
        forall|i: int| 0 <= i < s.len() && saved_to(s[i], source) ==> storable(#[trigger] s[i]),
    ensures
        parsed_todos(serialized_todos(s, source)) == saved_entries(s, source),
{
    lemma_serialized_lines(s, source);
}

// ---------------------------------------------------------------------------
// Deriving is settled
// ---------------------------------------------------------------------------

proof fn lemma_counts_nonneg(s: Seq<TodoView>, i: int, k: int)
    ensures
        child_counts(s, i, k).0 >= 0,
    decreases k - i,
{
    if k > i + 1 {
        lemma_counts_nonneg(s, i, k - 1);
    }
}

proof fn lemma_derived_agree(s: Seq<TodoView>, a: Seq<TodoView>, b: Seq<TodoView>, i: int)
    requires
        derived_from(s, a),
        derived_from(s, b),
        0 <= i <= s.len(),
    ensures
        forall|m: int| i <= m < s.len() ==> #[trigger] a[m] == b[m],
    decreases s.len() - i,
{
    if i < s.len() {
        lemma_derived_agree(s, a, b, i + 1);
        assert(same_but_status(s[i], a[i]) && same_but_status(s[i], b[i]));
        if !s[i].is_header {
            assert forall|k: int| i < k < a.len() implies a[k].depth == #[trigger] b[k].depth by {
                assert(a[k] == b[k]);
            }
            lemma_scope_frame(a, b, i, i + 1);
            assert(agree_after(a, b, i)) by {
                assert forall|m: int| i < m < a.len() implies a[m].depth == #[trigger] b[m].depth && a[m].state == b[m].state by {
                    assert(a[m] == b[m]);
                }
            }
            lemma_scope_bounds(a, i, i + 1);
            lemma_counts_frame(a, b, i, scope_end(a, i, i + 1));
            assert(subtask_counts(a, i) == subtask_counts(b, i));
            assert(derived_at(a, i) && derived_at(b, i));
            assert(a[i].has_subtasks == b[i].has_subtasks);
            let (t, c) = subtask_counts(a, i);
            lemma_counts_nonneg(a, i, scope_end(a, i, i + 1));
            if t > 0 {
                assert(a[i].state == summary_state(t, c));
                assert(b[i].state == summary_state(t, c));
            } else {
                assert(subtask_counts(b, i).0 == 0);
                assert(a[i].state == s[i].state);
                assert(b[i].state == s[i].state);
            }
            assert(a[i] == b[i]);
        }
    }
}

proof fn lemma_derived_fixpoint(s: Seq<TodoView>, a: Seq<TodoView>)
    requires
        derived_from(s, a),
    ensures
        derived_from(a, a),
{
    assert forall|i: int| 0 <= i < a.len() && !(#[trigger] a[i]).is_header implies derived_at(a, i) by {
        assert(same_but_status(s[i], a[i]));
    }
}

/// Deriving parent states a second time changes nothing: the derived list
/// is settled.
pub proof fn law_derive_settled(s: Seq<TodoView>, a: Seq<TodoView>, b: Seq<TodoView>)
    requires
        derived_from(s, a),
        derived_from(a, b),
    ensures
        b == a,
{
    lemma_derived_fixpoint(s, a);
    lemma_derived_agree(a, a, b, 0);
    assert(b =~= a);
}

} // verus!
