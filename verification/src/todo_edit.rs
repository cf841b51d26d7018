//! Editing the todo list: checking items off, half-done marks, deleting a
//! todo with its subtasks, adding todos and subtasks, and moving a todo with
//! its subtasks past its neighbour.
use vstd::prelude::*;
use crate::todo::{lemma_scope_bounds, next_header, scope_end, todo_views, CheckState, TodoItem, TodoView};
use crate::todo_list::{block_end, block_end_spec, header_before, lemma_block_end_bounds, rotate_segment};
use crate::text::{chars_of, string_of};

verus! {

/// Row `i` with another state.
pub open spec fn with_state(s: Seq<TodoView>, i: int, st: CheckState) -> Seq<TodoView> {
    s.update(i, TodoView { state: st, ..s[i] })
}

/// Every row in `lo .. hi` is checked.
pub open spec fn all_checked(s: Seq<TodoView>, lo: int, hi: int) -> bool {
    forall|j: int| lo <= j < hi ==> (#[trigger] s[j]).state == CheckState::Checked
}

/// The rows `lo .. hi` all set to state `st`.
pub open spec fn with_states(s: Seq<TodoView>, lo: int, hi: int, st: CheckState) -> Seq<TodoView> {
    Seq::new(s.len(), |j: int| if lo <= j < hi { TodoView { state: st, ..s[j] } } else { s[j] })
}

/// The state a plain todo takes when checked or unchecked: checked becomes
/// unchecked, anything else checked.
pub open spec fn flipped(st: CheckState) -> CheckState {
    match st {
        CheckState::Checked => CheckState::Unchecked,
        _ => CheckState::Checked,
    }
}

/// Space / `x` / Enter on row `i`: a todo with subtasks checks all of them,
/// or unchecks them all when all were checked; a plain todo flips.
pub open spec fn toggle_done_spec(s: Seq<TodoView>, i: int) -> Seq<TodoView> {
    if 0 <= i < s.len() && !s[i].is_header && !s[i].is_code_todo {
        if s[i].has_subtasks {
            let e = scope_end(s, i, i + 1);
            with_states(
                s,
                i + 1,
                e,
                if all_checked(s, i + 1, e) {
                    CheckState::Unchecked
                } else {
                    CheckState::Checked
                },
            )
        } else {
            with_state(s, i, flipped(s[i].state))
        }
    } else {
        s
    }
}

/// `a` on row `i`: a plain todo becomes half done, or back to unchecked.
pub open spec fn toggle_half_spec(s: Seq<TodoView>, i: int) -> Seq<TodoView> {
    if 0 <= i < s.len() && !s[i].is_header && !s[i].has_subtasks && !s[i].is_code_todo {
        with_state(
            s,
            i,
            if s[i].state == CheckState::Half {
                CheckState::Unchecked
            } else {
                CheckState::Half
            },
        )
    } else {
        s
    }
}

/// Check or uncheck row `i`.
pub fn toggle_done(items: &mut Vec<TodoItem>, i: usize)
    ensures
        todo_views(final(items)@) == toggle_done_spec(todo_views(old(items)@), i as int),
{
    let ghost s = todo_views(items@);
    if i < items.len() && !items[i].is_header && !items[i].is_code_todo {
        proof {
            assert(s[i as int] == items@[i as int]@);
        }
        if items[i].has_subtasks {
            let d = items[i].depth;
            let mut all = true;
            let mut j: usize = i + 1;
            proof {
                lemma_scope_bounds(s, i as int, i + 1);
            }
            while j < items.len() && items[j].depth > d
                invariant
                    s == todo_views(items@),
                    i < j <= items@.len(),
                    d == s[i as int].depth,
                    scope_end(s, i as int, i + 1) == scope_end(s, i as int, j as int),
                    all == all_checked(s, i + 1, j as int),
                decreases items.len() - j,
            {
                proof {
                    assert(s[j as int] == items@[j as int]@);
                }
                if items[j].state != CheckState::Checked {
                    all = false;
                }
                j = j + 1;
            }
            proof {
                if j < items@.len() {
                    assert(s[j as int] == items@[j as int]@);
                }
            }
            let e = j;
            let st = if all {
                CheckState::Unchecked
            } else {
                CheckState::Checked
            };
            let mut k: usize = i + 1;
            while k < e
                invariant
                    s == todo_views(old(items)@),
                    items@.len() == s.len(),
                    i < k <= e <= s.len(),
                    forall|m: int| 0 <= m < s.len() ==> #[trigger] todo_views(items@)[m] == (if i + 1 <= m < k {
                        TodoView { state: st, ..s[m] }
                    } else {
                        s[m]
                    }),
                decreases e - k,
            {
                let ghost before = items@;
                items[k].state = st;
                proof {
                    assert forall|m: int| 0 <= m < s.len() implies #[trigger] todo_views(items@)[m] == (if i + 1 <= m < k + 1 {
                        TodoView { state: st, ..s[m] }
                    } else {
                        s[m]
                    }) by {
                        assert(todo_views(before)[m] == before[m]@);
                        if m != k {
                            assert(items@[m] == before[m]);
                        }
                    }
                }
                k = k + 1;
            }
            proof {
                assert(todo_views(items@) =~= toggle_done_spec(s, i as int));
            }
        } else {
            let st = match items[i].state {
                CheckState::Unchecked => CheckState::Checked,
                CheckState::Checked => CheckState::Unchecked,
                CheckState::Half => CheckState::Checked,
            };
            items[i].state = st;
            proof {
                assert(todo_views(items@) =~= toggle_done_spec(s, i as int));
            }
        }
    }
}

/// Mark row `i` half done, or back to unchecked.
pub fn toggle_half(items: &mut Vec<TodoItem>, i: usize)
    ensures
        todo_views(final(items)@) == toggle_half_spec(todo_views(old(items)@), i as int),
{
    let ghost s = todo_views(items@);
    if i < items.len() && !items[i].is_header && !items[i].has_subtasks && !items[i].is_code_todo {
        proof {
            assert(s[i as int] == items@[i as int]@);
        }
        let st = match items[i].state {
            CheckState::Half => CheckState::Unchecked,
            _ => CheckState::Half,
        };
        items[i].state = st;
        proof {
            assert(todo_views(items@) =~= toggle_half_spec(s, i as int));
        }
    }
}

/// Deleting row `i`: a todo with subtasks goes with all of them; headers
/// stay.
pub open spec fn delete_spec(s: Seq<TodoView>, i: int) -> Seq<TodoView> {
    if 0 <= i < s.len() && !s[i].is_header {
        let e = if s[i].has_subtasks {
            scope_end(s, i, i + 1)
        } else {
            i + 1
        };
        s.subrange(0, i) + s.subrange(e, s.len() as int)
    } else {
        s
    }
}

/// Delete row `i` (with its subtasks).
pub fn delete_todo(items: &mut Vec<TodoItem>, i: usize)
    ensures
        todo_views(final(items)@) == delete_spec(todo_views(old(items)@), i as int),
{
    let ghost s = todo_views(items@);
    if i < items.len() && !items[i].is_header {
        proof {
            assert(s[i as int] == items@[i as int]@);
        }
        let mut e: usize = i + 1;
        if items[i].has_subtasks {
            let d = items[i].depth;
            proof {
                lemma_scope_bounds(s, i as int, i + 1);
            }
            while e < items.len() && items[e].depth > d
                invariant
                    s == todo_views(items@),
                    i < e <= items@.len(),
                    d == s[i as int].depth,
                    scope_end(s, i as int, i + 1) == scope_end(s, i as int, e as int),
                decreases items.len() - e,
            {
                proof {
                    assert(s[e as int] == items@[e as int]@);
                }
                e = e + 1;
            }
            proof {
                if e < items@.len() {
                    assert(s[e as int] == items@[e as int]@);
                }
            }
        }
        let ghost o = items@;
        let mut k: usize = 0;
        while k < e - i
            invariant
                i < e <= o.len(),
                k <= e - i,
                items@ == o.subrange(0, i as int) + o.subrange(i + k, o.len() as int),
            decreases e - i - k,
        {
            items.remove(i);
            k = k + 1;
            proof {
                assert(items@ =~= o.subrange(0, i as int) + o.subrange(i + k, o.len() as int));
            }
        }
        proof {
            assert(todo_views(items@) =~= delete_spec(s, i as int));
        }
    }
}

/// Row `j` is a subtask of row `i`: it follows `i`, and every row from just
/// after `i` up to `j` is deeper than `i`.
pub open spec fn in_subtasks(s: Seq<TodoView>, i: int, j: int) -> bool {
    &&& 0 <= i < j < s.len()
    &&& forall|k: int| i < k <= j ==> #[trigger] s[k].depth > s[i].depth
}

/// The subtask rows of `i` are exactly `i + 1 .. scope_end`.
proof fn lemma_in_subtasks(s: Seq<TodoView>, i: int, j: int)
    requires
        0 <= i < s.len(),
    ensures
        in_subtasks(s, i, j) <==> i + 1 <= j < scope_end(s, i, i + 1),
{
    lemma_scope_bounds(s, i, i + 1);
    let e = scope_end(s, i, i + 1);
    if in_subtasks(s, i, j) && j >= e {
        assert(s[e].depth > s[i].depth);
    }
    if i + 1 <= j < e {
        assert forall|k: int| i < k <= j implies #[trigger] s[k].depth > s[i].depth by {
            assert(i + 1 <= k < e);
        }
    }
}

/// A row with another state and everything else kept.
pub open spec fn restated(v: TodoView, st: CheckState) -> TodoView {
    TodoView { state: st, ..v }
}

/// Every subtask of row `i` is checked.
pub open spec fn subtasks_all_checked(s: Seq<TodoView>, i: int) -> bool {
    forall|k: int| #[trigger] in_subtasks(s, i, k) ==> s[k].state == CheckState::Checked
}

/// Toggling a todo with subtasks touches only its subtasks, and only their
/// states: every subtask becomes checked when one of them was not, and all
/// become unchecked when all were checked.
pub proof fn law_toggle_parent(s: Seq<TodoView>, i: int)
    requires
        0 <= i < s.len(),
        !s[i].is_header,
        !s[i].is_code_todo,
        s[i].has_subtasks,
    ensures
        toggle_done_spec(s, i).len() == s.len(),
        forall|j: int| 0 <= j < s.len() && !in_subtasks(s, i, j) ==> #[trigger] toggle_done_spec(s, i)[j] == s[j],
        subtasks_all_checked(s, i) ==> forall|j: int| #[trigger] in_subtasks(s, i, j)
            ==> toggle_done_spec(s, i)[j] == restated(s[j], CheckState::Unchecked),
        !subtasks_all_checked(s, i) ==> forall|j: int| #[trigger] in_subtasks(s, i, j)
            ==> toggle_done_spec(s, i)[j] == restated(s[j], CheckState::Checked),
{
    let e = scope_end(s, i, i + 1);
    lemma_scope_bounds(s, i, i + 1);
    assert forall|j: int| 0 <= j < s.len() && !in_subtasks(s, i, j) implies #[trigger] toggle_done_spec(s, i)[j] == s[j] by {
        lemma_in_subtasks(s, i, j);
    }
    assert(subtasks_all_checked(s, i) == all_checked(s, i + 1, e)) by {
        if subtasks_all_checked(s, i) {
            assert forall|j: int| i + 1 <= j < e implies (#[trigger] s[j]).state == CheckState::Checked by {
                lemma_in_subtasks(s, i, j);
            }
        }
        if all_checked(s, i + 1, e) {
            assert forall|k: int| #[trigger] in_subtasks(s, i, k) implies s[k].state == CheckState::Checked by {
                lemma_in_subtasks(s, i, k);
            }
        }
    }
    assert forall|j: int| #[trigger] in_subtasks(s, i, j) implies toggle_done_spec(s, i)[j] == restated(
        s[j],
        if subtasks_all_checked(s, i) { CheckState::Unchecked } else { CheckState::Checked },
    ) by {
        lemma_in_subtasks(s, i, j);
    }
}

/// Toggling a todo without subtasks checks it, or unchecks it when it was
/// checked, and leaves every other row alone.
pub proof fn law_toggle_plain(s: Seq<TodoView>, i: int)
    requires
        0 <= i < s.len(),
        !s[i].is_header,
        !s[i].is_code_todo,
        !s[i].has_subtasks,
    ensures
        toggle_done_spec(s, i).len() == s.len(),
        (toggle_done_spec(s, i)[i].state == CheckState::Checked) == (s[i].state != CheckState::Checked),
        toggle_done_spec(s, i)[i] == restated(s[i], toggle_done_spec(s, i)[i].state),
        forall|j: int| 0 <= j < s.len() && j != i ==> #[trigger] toggle_done_spec(s, i)[j] == s[j],
{
}

/// Toggling a section header or a code todo changes nothing.
pub proof fn law_toggle_inert(s: Seq<TodoView>, i: int)
    requires
        0 <= i < s.len(),
        s[i].is_header || s[i].is_code_todo,
    ensures
        toggle_done_spec(s, i) == s,
{
}

/// Deleting a section header changes nothing.
pub proof fn law_delete_header(s: Seq<TodoView>, i: int)
    requires
        0 <= i < s.len(),
        s[i].is_header,
    ensures
        delete_spec(s, i) == s,
{
}

/// Deleting a todo removes it together with all its subtasks: when the rows
/// `i + 1 .. e` are deeper than `i` and row `e` (if any) is not, the result
/// is the list without rows `i .. e`.
pub proof fn law_delete_block(s: Seq<TodoView>, i: int, e: int)
    requires
        0 <= i < e <= s.len(),
        !s[i].is_header,
        s[i].has_subtasks,
        forall|k: int| i < k < e ==> #[trigger] s[k].depth > s[i].depth,
        e < s.len() ==> s[e].depth <= s[i].depth,
    ensures
        delete_spec(s, i) == s.subrange(0, i) + s.subrange(e, s.len() as int),
{
    lemma_scope_end_at(s, i, i + 1, e);
}

/// Deleting a todo without subtasks removes that row alone.
pub proof fn law_delete_plain(s: Seq<TodoView>, i: int)
    requires
        0 <= i < s.len(),
        !s[i].is_header,
        !s[i].has_subtasks,
    ensures
        delete_spec(s, i) == s.remove(i),
{
    assert(s.subrange(0, i) + s.subrange(i + 1, s.len() as int) =~= s.remove(i));
}

/// The scope of `i` ends at the first row, from `j` on, that is no deeper.
proof fn lemma_scope_end_at(s: Seq<TodoView>, i: int, j: int, e: int)
    requires
        0 <= i < j <= e <= s.len(),
        forall|k: int| j <= k < e ==> #[trigger] s[k].depth > s[i].depth,
        e < s.len() ==> s[e].depth <= s[i].depth,
    ensures
        scope_end(s, i, j) == e,
    decreases e - j,
{
    if j < e {
        assert(s[j].depth > s[i].depth);
        lemma_scope_end_at(s, i, j + 1, e);
    }
}

/// A new unchecked top-level todo with the given text, file and project.
pub open spec fn new_todo(text: Seq<char>, source: Seq<char>, project: Seq<char>, depth: u8) -> TodoView {
    TodoView {
        text,
        state: CheckState::Unchecked,
        source,
        project,
        is_header: false,
        depth,
        has_subtasks: false,
        collapsed: false,
        is_code_todo: false,
        flags: 0,
    }
}

/// Where a new todo added below row `i` goes: at the end of its section
/// (before the next header, or at the end of the list).
pub open spec fn todo_insert_at(s: Seq<TodoView>, i: int) -> int {
    next_header(s, i + 1)
}

pub proof fn lemma_next_header_bounds(s: Seq<TodoView>, j: int)
    requires
        0 <= j <= s.len(),
    ensures
        j <= next_header(s, j) <= s.len(),
    decreases s.len() - j,
{
    if j < s.len() && !s[j].is_header {
        lemma_next_header_bounds(s, j + 1);
    }
}

fn item_of(text: &str, source: &str, project: &str, depth: u8) -> (r: TodoItem)
    ensures
        r@ == new_todo(text@, source@, project@, depth),
{
    TodoItem {
        text: string_of(chars_of(text).as_slice()),
        state: CheckState::Unchecked,
        source: string_of(chars_of(source).as_slice()),
        project: string_of(chars_of(project).as_slice()),
        is_header: false,
        depth,
        has_subtasks: false,
        collapsed: false,
        is_code_todo: false,
        flags: 0,
    }
}

/// Add a todo at the end of the section of row `i`, for the given file and
/// project; returns where it went.
pub fn insert_todo(items: &mut Vec<TodoItem>, i: usize, text: &str, source: &str, project: &str) -> (r: usize)
    requires
        i < old(items)@.len(),
    ensures
        r as int == todo_insert_at(todo_views(old(items)@), i as int),
        todo_views(final(items)@) == todo_views(old(items)@).insert(r as int, new_todo(text@, source@, project@, 0)),
{
    let ghost s = todo_views(items@);
    assert(i < items.len());
    let mut at: usize = i + 1;
    proof {
        lemma_next_header_bounds(s, i + 1);
    }
    while at < items.len() && !items[at].is_header
        invariant
            s == todo_views(items@),
            i < at <= items@.len(),
            next_header(s, i + 1) == next_header(s, at as int),
        decreases items.len() - at,
    {
        proof {
            assert(s[at as int] == items@[at as int]@);
        }
        at = at + 1;
    }
    proof {
        if at < items@.len() {
            assert(s[at as int] == items@[at as int]@);
        }
    }
    let it = item_of(text, source, project, 0);
    items.insert(at, it);
    proof {
        assert(todo_views(items@) =~= s.insert(at as int, new_todo(text@, source@, project@, 0)));
    }
    at
}

/// Adding a subtask under row `i` (a todo at depth 0 or 1): the parent is
/// marked as having subtasks and expanded, and the subtask goes after its
/// last descendant, one level deeper, in the parent's file and project.
pub open spec fn subtask_spec(s: Seq<TodoView>, i: int, text: Seq<char>) -> Seq<TodoView> {
    let p = s[i];
    s.update(i, TodoView { has_subtasks: true, collapsed: false, ..p }).insert(
        scope_end(s, i, i + 1),
        new_todo(text, p.source, p.project, (p.depth + 1) as u8),
    )
}

/// Add a subtask under row `i`; returns where it went.
pub fn insert_subtask(items: &mut Vec<TodoItem>, i: usize, text: &str) -> (r: usize)
    requires
        i < old(items)@.len(),
        !old(items)@[i as int].is_header,
        old(items)@[i as int].depth < 2,
    ensures
        r as int == scope_end(todo_views(old(items)@), i as int, i + 1),
        todo_views(final(items)@) == subtask_spec(todo_views(old(items)@), i as int, text@),
{
    let ghost s = todo_views(items@);
    proof {
        assert(s[i as int] == items@[i as int]@);
        lemma_scope_bounds(s, i as int, i + 1);
    }
    let d = items[i].depth;
    assert(i < items.len());
    let mut at: usize = i + 1;
    while at < items.len() && items[at].depth > d
        invariant
            s == todo_views(items@),
            i < at <= items@.len(),
            d == s[i as int].depth,
            scope_end(s, i as int, i + 1) == scope_end(s, i as int, at as int),
        decreases items.len() - at,
    {
        proof {
            assert(s[at as int] == items@[at as int]@);
        }
        at = at + 1;
    }
    proof {
        if at < items@.len() {
            assert(s[at as int] == items@[at as int]@);
        }
    }
    let it = item_of(text, items[i].source.as_str(), items[i].project.as_str(), d + 1);
    items[i].has_subtasks = true;
    items.insert(at, it);
    items[i].collapsed = false;
    proof {
        assert(todo_views(items@) =~= subtask_spec(s, i as int, text@));
    }
    at
}

/// `J` on row `i`: the todo and its subtasks swap places with the next
/// sibling block at the same depth in the same section, if there is one.
/// Returns the list and where the moved todo now starts.
pub open spec fn move_down_spec(s: Seq<TodoView>, i: int) -> Option<(Seq<TodoView>, int)> {
    if 0 <= i < s.len() && !s[i].is_header && !s[i].is_code_todo {
        let a = block_end_spec(s, i);
        if a < s.len() && !s[a].is_header && s[a].depth == s[i].depth {
            let b = block_end_spec(s, a);
            Some((s.subrange(0, i) + s.subrange(a, b) + s.subrange(i, a) + s.subrange(b, s.len() as int), i + (b - a)))
        } else {
            None
        }
    } else {
        None
    }
}

/// The previous sibling of row `i` in its section: walking back, the first
/// row at the same depth, unless a header or a shallower row comes first.
pub open spec fn prev_sibling(s: Seq<TodoView>, i: int, j: int) -> Option<int>
    decreases j,
{
    if j <= 0 {
        None
    } else if s[j - 1].is_header || s[j - 1].depth < s[i].depth {
        None
    } else if s[j - 1].depth == s[i].depth {
        Some(j - 1)
    } else {
        prev_sibling(s, i, j - 1)
    }
}

/// `K` on row `i`: the todo and its subtasks swap places with the previous
/// sibling block.  Returns the list and where the moved todo now starts.
pub open spec fn move_up_spec(s: Seq<TodoView>, i: int) -> Option<(Seq<TodoView>, int)> {
    if 0 < i < s.len() && !s[i].is_header && !s[i].is_code_todo {
        match prev_sibling(s, i, i) {
            Some(p) => {
                let a = block_end_spec(s, i);
                Some((s.subrange(0, p) + s.subrange(i, a) + s.subrange(p, i) + s.subrange(a, s.len() as int), p))
            },
            None => None,
        }
    } else {
        None
    }
}

/// Move row `i`'s block below the next sibling block; returns where it starts.
pub fn move_block_down(items: &mut Vec<TodoItem>, i: usize) -> (r: Option<usize>)
    ensures
        match move_down_spec(todo_views(old(items)@), i as int) {
            Some((t, n)) => todo_views(final(items)@) == t && r == Some(n as usize),
            None => final(items)@ == old(items)@ && r is None,
        },
{
    let ghost s = todo_views(items@);
    if i < items.len() && !items[i].is_header && !items[i].is_code_todo {
        proof {
            assert(s[i as int] == items@[i as int]@);
        }
        let a = block_end(items.as_slice(), i);
        if a < items.len() && !items[a].is_header && items[a].depth == items[i].depth {
            proof {
                assert(s[a as int] == items@[a as int]@);
            }
            let b = block_end(items.as_slice(), a);
            rotate_segment(items, i, a, b);
            proof {
                assert(todo_views(items@) =~= s.subrange(0, i as int) + s.subrange(a as int, b as int) + s.subrange(
                    i as int,
                    a as int,
                ) + s.subrange(b as int, s.len() as int));
            }
            return Some(i + (b - a));
        }
        proof {
            if a < items@.len() {
                assert(s[a as int] == items@[a as int]@);
            }
        }
    }
    None
}

/// Move row `i`'s block above the previous sibling block; returns where it starts.
pub fn move_block_up(items: &mut Vec<TodoItem>, i: usize) -> (r: Option<usize>)
    ensures
        match move_up_spec(todo_views(old(items)@), i as int) {
            Some((t, n)) => todo_views(final(items)@) == t && r == Some(n as usize),
            None => final(items)@ == old(items)@ && r is None,
        },
{
    let ghost s = todo_views(items@);
    if i < items.len() && i > 0 && !items[i].is_header && !items[i].is_code_todo {
        proof {
            assert(s[i as int] == items@[i as int]@);
        }
        let d = items[i].depth;
        let mut j: usize = i;
        let mut found: Option<usize> = None;
        let mut stop = false;
        while j > 0 && !stop
            invariant
                s == todo_views(items@),
                0 <= j <= i < items@.len(),
                d == s[i as int].depth,
                !stop ==> prev_sibling(s, i as int, i as int) == prev_sibling(s, i as int, j as int),
                !stop ==> found is None,
                stop ==> prev_sibling(s, i as int, i as int) == match found {
                    Some(p) => Some(p as int),
                    None => None::<int>,
                },
            decreases j, !stop as int,
        {
            proof {
                assert(s[j - 1] == items@[j - 1]@);
            }
            if items[j - 1].is_header || items[j - 1].depth < d {
                stop = true;
            } else if items[j - 1].depth == d {
                found = Some(j - 1);
                stop = true;
            } else {
                j = j - 1;
            }
        }
        match found {
            Some(p) => {
                proof {
                    lemma_prev_sibling_below(s, i as int, i as int);
                    lemma_block_end_bounds(s, i as int, i + 1);
                }
                let a = block_end(items.as_slice(), i);
                rotate_segment(items, p, i, a);
                proof {
                    assert(todo_views(items@) =~= s.subrange(0, p as int) + s.subrange(i as int, a as int) + s.subrange(
                        p as int,
                        i as int,
                    ) + s.subrange(a as int, s.len() as int));
                }
                return Some(p);
            },
            None => {},
        }
    }
    None
}

proof fn lemma_prev_sibling_below(s: Seq<TodoView>, i: int, j: int)
    requires
        0 <= j <= s.len(),
    ensures
        prev_sibling(s, i, j) matches Some(p) ==> 0 <= p < j,
    decreases j,
{
    if j > 0 && !(s[j - 1].is_header || s[j - 1].depth < s[i].depth) && s[j - 1].depth != s[i].depth {
        lemma_prev_sibling_below(s, i, j - 1);
    }
}

} // verus!
