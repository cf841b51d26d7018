//! The decisions of the interactive todo list: what each key and mouse
//! event does to the todos, the selection and the modes.  The view runs the
//! loop, draws, and performs the actions handed back (create a category,
//! quit), then saves the todos.
use vstd::prelude::*;
use vstd::utf8::{encode_utf8, is_char_boundary};
use crate::input::{
    cell_in_area, edit_key, edit_key_spec, field_ok, in_area, search_key, search_key_spec, vim_step, Area, FieldView,
    Key, Mouse, MouseKind, VimCommandMode,
};
use crate::tags::{dot_at, filter_flat, filter_sets, mouse_x_to_dot, mouse_x_to_filter_dot, parse_filter, tag_bit, tag_bit_exec, tag_name, tag_name_string, toggle_filter_tag, toggled_filter, TAG_COUNT};
use crate::text::{chars_of, contains, string_of, trim, trim_str};
use crate::todo::{
    depths_bounded, derive_header_flags, derive_parent_states, derived_at, next_header, scope_end, section_flags,
    same_but_status, subtask_counts, todo_views, CheckState, TodoItem, TodoView,
};
use crate::todo_edit::{
    delete_spec, delete_todo, insert_subtask, insert_todo, move_block_down, move_block_up, move_down_spec,
    move_up_spec, new_todo, subtask_spec, todo_insert_at, toggle_done, toggle_done_spec, toggle_half,
    toggle_half_spec,
};
use crate::todo_list::{
    can_drag, can_drag_spec, compute_filter_keep, compute_visible, dragged, dragged_start, find_section,
    get_visible_indices, header_before, kept_by_filter, lemma_header_before_bounds, mouse_y_to_real_idx,
    perform_drag_move, row_at, section_of, visible_filtered, visible_indices,
};
use crate::tree_ui::{index_in, position_of};

verus! {

broadcast use vstd::utf8::encode_utf8_valid_utf8;

/// Why a new category name was refused.
#[derive(PartialEq, Eq, Structural, Clone, Copy, Debug)]
pub enum CategoryError {
    Empty,
    HasSlash,
    Exists,
}

/// What the view does after an event.
pub enum TodoAction {
    /// Keep going.
    Stay,
    /// Leave the view (and save).
    Quit,
    /// Create the category of this name (save, create its `TODO.md`,
    /// reload), or report that it exists.
    CreateCategory(String),
}

/// The state of the interactive todo list between events.
pub struct TodoUi {
    pub items: Vec<TodoItem>,
    pub global: bool,
    pub selected: usize,
    pub offset: usize,
    pub vim: VimCommandMode,
    pub input_mode: bool,
    pub subtask_mode: bool,
    pub edit_mode: bool,
    pub edit_idx: usize,
    pub input_buffer: String,
    pub flag_mode: bool,
    pub search_mode: bool,
    pub search_buffer: String,
    pub cursor_pos: usize,
    pub confirm_delete: bool,
    pub focus_active: bool,
    pub pre_focus_collapsed: Vec<(usize, bool)>,
    pub show_help: bool,
    pub category_mode: bool,
    pub category_error: Option<CategoryError>,
    pub drag_candidate: Option<usize>,
    pub drag_active: bool,
    pub drag_start: Option<usize>,
    pub drag_target: Option<usize>,
    pub hover_flag: Option<(usize, u8)>,
    pub prev_filter_text: String,
    pub prev_filter_tags: u8,
}

/// The mathematical content of a `TodoUi`.
pub struct TodoUiView {
    pub items: Seq<TodoView>,
    pub global: bool,
    pub selected: usize,
    pub offset: usize,
    pub vim_active: bool,
    pub vim_buffer: Seq<char>,
    pub input_mode: bool,
    pub subtask_mode: bool,
    pub edit_mode: bool,
    pub edit_idx: usize,
    pub input: Seq<char>,
    pub flag_mode: bool,
    pub search_mode: bool,
    pub search: Seq<char>,
    pub cursor: usize,
    pub confirm_delete: bool,
    pub focus_active: bool,
    pub pre_focus: Seq<(usize, bool)>,
    pub show_help: bool,
    pub category_mode: bool,
    pub category_error: Option<CategoryError>,
    pub drag_candidate: Option<usize>,
    pub drag_active: bool,
    pub drag_start: Option<usize>,
    pub drag_target: Option<usize>,
    pub hover_flag: Option<(usize, u8)>,
    pub prev_filter: (Seq<char>, u8),
}

impl View for TodoUi {
    type V = TodoUiView;

    open spec fn view(&self) -> TodoUiView {
        TodoUiView {
            items: todo_views(self.items@),
            global: self.global,
            selected: self.selected,
            offset: self.offset,
            vim_active: self.vim.active,
            vim_buffer: self.vim.buffer@,
            input_mode: self.input_mode,
            subtask_mode: self.subtask_mode,
            edit_mode: self.edit_mode,
            edit_idx: self.edit_idx,
            input: self.input_buffer@,
            flag_mode: self.flag_mode,
            search_mode: self.search_mode,
            search: self.search_buffer@,
            cursor: self.cursor_pos,
            confirm_delete: self.confirm_delete,
            focus_active: self.focus_active,
            pre_focus: self.pre_focus_collapsed@,
            show_help: self.show_help,
            category_mode: self.category_mode,
            category_error: self.category_error,
            drag_candidate: self.drag_candidate,
            drag_active: self.drag_active,
            drag_start: self.drag_start,
            drag_target: self.drag_target,
            hover_flag: self.hover_flag,
            prev_filter: (self.prev_filter_text@, self.prev_filter_tags),
        }
    }
}

/// A prompt is open.
pub open spec fn prompt_open(v: TodoUiView) -> bool {
    v.input_mode || v.subtask_mode || v.edit_mode || v.category_mode
}

/// The state can be worked on: the list starts with a section header,
/// depths leave room for a level more, and while the filter is typed in
/// the cursor is on a character boundary of it.
pub open spec fn todo_ui_wf(v: TodoUiView) -> bool {
    &&& v.items.len() > 0
    &&& v.items[0].is_header
    &&& forall|i: int| 0 <= i < v.items.len() ==> (#[trigger] v.items[i]).depth <= 2
    &&& v.search_mode ==> is_char_boundary(encode_utf8(v.search), v.cursor as int)
}

/// The row under the selection of the list `vis` (`0` past its end).
pub open spec fn row_at_sel(vis: Seq<usize>, sel: usize) -> usize {
    if (sel as int) < vis.len() {
        vis[sel as int]
    } else {
        0
    }
}

/// The header of the section of row `i`: the nearest header at or before it.
pub open spec fn header_of(s: Seq<TodoView>, i: int) -> Option<int> {
    header_before(s, i + 1)
}

/// Row `i` collapsed or expanded.
pub open spec fn with_collapsed(s: Seq<TodoView>, i: int, b: bool) -> Seq<TodoView> {
    s.update(i, TodoView { collapsed: b, ..s[i] })
}

/// Collapse or expand the row `o` names, if any.
pub open spec fn opt_collapsed(s: Seq<TodoView>, o: Option<int>, b: bool) -> Seq<TodoView> {
    match o {
        Some(i) => with_collapsed(s, i, b),
        None => s,
    }
}

/// The selection after moving from row `here` to row `target` (`fallback`
/// when nothing special happens): under focus, crossing into another
/// section collapses the old section, expands the new one and selects the
/// target in the recomputed list.
pub open spec fn todo_hop(s: Seq<TodoView>, here: int, target: usize, focus: bool, sel: usize, fallback: usize) -> (Seq<TodoView>, usize) {
    let oh = header_of(s, here);
    let nh = header_of(s, target as int);
    if focus && nh != oh {
        let t = opt_collapsed(opt_collapsed(s, oh, true), nh, false);
        (
            t,
            match index_in(visible_indices(t), target) {
                Some(p) => p,
                None => sel,
            },
        )
    } else {
        (s, fallback)
    }
}

/// Every header's and parent's collapse set to `b`.
pub open spec fn all_collapsed(s: Seq<TodoView>, b: bool) -> Seq<TodoView> {
    Seq::new(s.len(), |i: int| if s[i].is_header || s[i].has_subtasks { TodoView { collapsed: b, ..s[i] } } else { s[i] })
}

/// Some header or parent is collapsed.
pub open spec fn any_collapsed(s: Seq<TodoView>) -> bool {
    exists|i: int| 0 <= i < s.len() && ((#[trigger] s[i]).is_header || s[i].has_subtasks) && s[i].collapsed
}

/// Every header collapsed except the header `keep`.
pub open spec fn focus_headers(s: Seq<TodoView>, keep: Option<int>) -> Seq<TodoView> {
    Seq::new(s.len(), |i: int| if s[i].is_header { TodoView { collapsed: Some(i) != keep, ..s[i] } } else { s[i] })
}

/// Every header's collapse, in row order.
pub open spec fn header_snapshot(s: Seq<TodoView>) -> Seq<(usize, bool)>
    decreases s.len(),
{
    if s.len() == 0 {
        Seq::empty()
    } else {
        let prev = header_snapshot(s.drop_last());
        let i = s.len() - 1;
        if s[i].is_header {
            prev.push((i as usize, s[i].collapsed))
        } else {
            prev
        }
    }
}

/// Put back recorded collapses, in order, skipping rows out of range.
pub open spec fn restore_collapsed(s: Seq<TodoView>, pre: Seq<(usize, bool)>) -> Seq<TodoView>
    decreases pre.len(),
{
    if pre.len() == 0 {
        s
    } else {
        let t = restore_collapsed(s, pre.drop_last());
        let (i, b) = pre.last();
        if (i as int) < t.len() {
            with_collapsed(t, i as int, b)
        } else {
            t
        }
    }
}

/// Only the collapse marks differ.
pub open spec fn same_but_collapse(a: Seq<TodoView>, b: Seq<TodoView>) -> bool {
    &&& a.len() == b.len()
    &&& forall|i: int| 0 <= i < a.len() ==> #[trigger] b[i] == TodoView { collapsed: b[i].collapsed, ..a[i] }
}

proof fn lemma_restore_collapsed(s: Seq<TodoView>, pre: Seq<(usize, bool)>)
    ensures
        same_but_collapse(s, restore_collapsed(s, pre)),
    decreases pre.len(),
{
    if pre.len() > 0 {
        lemma_restore_collapsed(s, pre.drop_last());
    }
}

/// Collapse or expand one row.
fn set_collapsed(items: &mut Vec<TodoItem>, i: usize, b: bool)
    requires
        i < old(items)@.len(),
    ensures
        todo_views(final(items)@) == with_collapsed(todo_views(old(items)@), i as int, b),
{
    items[i].collapsed = b;
    proof {
        assert(todo_views(items@) =~= with_collapsed(todo_views(old(items)@), i as int, b));
    }
}

/// The nearest header at or before row `i`.
pub fn find_header(items: &Vec<TodoItem>, i: usize) -> (r: Option<usize>)
    requires
        i < items@.len(),
    ensures
        match r {
            Some(h) => header_of(todo_views(items@), i as int) == Some(h as int),
            None => header_of(todo_views(items@), i as int) is None,
        },
{
    let ghost s = todo_views(items@);
    assert(i < items.len());
    let mut k: usize = i + 1;
    while k > 0
        invariant
            s == todo_views(items@),
            k <= i + 1,
            i < items@.len(),
            header_before(s, i + 1) == header_before(s, k as int),
        decreases k,
    {
        proof {
            assert(s[k - 1] == items@[k - 1]@);
        }
        if items[k - 1].is_header {
            return Some(k - 1);
        }
        k = k - 1;
    }
    None
}

proof fn lemma_header_of_bound(s: Seq<TodoView>, i: int)
    requires
        0 <= i < s.len(),
    ensures
        header_of(s, i) matches Some(h) ==> 0 <= h <= i,
{
    lemma_header_before_bounds(s, i + 1);
}

/// The depth bound survives collapse changes.
proof fn lemma_collapse_keeps_depths(a: Seq<TodoView>, b: Seq<TodoView>)
    requires
        same_but_collapse(a, b),
        forall|i: int| 0 <= i < a.len() ==> (#[trigger] a[i]).depth <= 2,
    ensures
        forall|i: int| 0 <= i < b.len() ==> (#[trigger] b[i]).depth <= 2,
{
    assert forall|i: int| 0 <= i < b.len() implies (#[trigger] b[i]).depth <= 2 by {
        assert(b[i].depth == a[i].depth);
    }
}

// ---------------------------------------------------------------------------
// Normal-mode keys
// ---------------------------------------------------------------------------

/// `j` / Down on the list `vis`.
pub open spec fn nav_down_spec(v: TodoUiView, vis: Seq<usize>) -> TodoUiView {
    if v.selected + 1 < vis.len() {
        let (t, sel) = todo_hop(v.items, vis[v.selected as int] as int, vis[v.selected + 1], v.focus_active, v.selected, (v.selected + 1) as usize);
        TodoUiView { items: t, selected: sel, ..v }
    } else {
        v
    }
}

/// `k` / Up on the list `vis`.
pub open spec fn nav_up_spec(v: TodoUiView, vis: Seq<usize>) -> TodoUiView {
    if v.selected > 0 && v.selected - 1 < vis.len() {
        let (t, sel) = todo_hop(v.items, row_at_sel(vis, v.selected) as int, vis[v.selected - 1], v.focus_active, v.selected, (v.selected - 1) as usize);
        TodoUiView { items: t, selected: sel, ..v }
    } else {
        v
    }
}

/// `l` / Right: expand the selected row.
pub open spec fn expand_row_spec(v: TodoUiView, vis: Seq<usize>) -> TodoUiView {
    let h = row_at_sel(vis, v.selected) as int;
    if h < v.items.len() && v.items[h].collapsed {
        TodoUiView { items: with_collapsed(v.items, h, false), focus_active: false, ..v }
    } else {
        v
    }
}

/// `h` / Left: collapse the selected header or parent.
pub open spec fn collapse_row_spec(v: TodoUiView, vis: Seq<usize>) -> TodoUiView {
    let h = row_at_sel(vis, v.selected) as int;
    if h < v.items.len() && !v.items[h].collapsed && (v.items[h].has_subtasks || v.items[h].is_header) {
        TodoUiView { items: with_collapsed(v.items, h, true), focus_active: false, ..v }
    } else {
        v
    }
}

/// `v`: expand everything if something is collapsed, else collapse every
/// header and parent; select the header of the selection's section.
pub open spec fn view_all_todo_spec(v: TodoUiView, vis: Seq<usize>) -> TodoUiView {
    let h = row_at_sel(vis, v.selected) as int;
    let cur = match header_of(v.items, h) {
        Some(c) => c,
        None => 0,
    };
    let t = all_collapsed(v.items, !any_collapsed(v.items));
    match index_in(visible_indices(t), cur as usize) {
        Some(p) => TodoUiView { items: t, offset: 0, selected: p, focus_active: false, ..v },
        None => TodoUiView { items: t, focus_active: false, ..v },
    }
}

/// `f`: collapse every section but the selection's, or undo that.
pub open spec fn focus_todo_spec(v: TodoUiView, vis: Seq<usize>) -> TodoUiView {
    let h = row_at_sel(vis, v.selected) as int;
    if h < v.items.len() {
        if v.focus_active {
            let cur = match header_of(v.items, h) {
                Some(c) => c,
                None => h,
            };
            let t = restore_collapsed(v.items, v.pre_focus);
            match index_in(visible_indices(t), cur as usize) {
                Some(p) => TodoUiView { items: t, selected: p, focus_active: false, ..v },
                None => TodoUiView { items: t, focus_active: false, ..v },
            }
        } else {
            TodoUiView {
                items: focus_headers(v.items, header_of(v.items, h)),
                pre_focus: header_snapshot(v.items),
                focus_active: true,
                ..v
            }
        }
    } else {
        v
    }
}

/// A block move (`J` / `K`) that took place: the new list, the selection
/// on the moved todo.
pub open spec fn after_move(v: TodoUiView, m: Option<(Seq<TodoView>, int)>) -> TodoUiView {
    match m {
        Some((t, n)) => match index_in(visible_indices(t), n as usize) {
            Some(p) => TodoUiView { items: t, selected: p, ..v },
            None => TodoUiView { items: t, ..v },
        },
        None => v,
    }
}

/// The row a prompt works on.
pub open spec fn prompt_row_ok(s: Seq<TodoView>, h: int) -> bool {
    h < s.len() && !s[h].is_header && !s[h].is_code_todo
}

/// A key in normal mode on the filtered list `vis`.
pub open spec fn todo_normal_key(v: TodoUiView, vis: Seq<usize>, key: Key) -> (TodoUiView, bool) {
    let h = row_at_sel(vis, v.selected) as int;
    let s = v.items;
    match key {
        Key::Char('q') => (v, true),
        Key::Esc => if v.search.len() > 0 {
            (TodoUiView { search: Seq::empty(), ..v }, false)
        } else {
            (v, true)
        },
        Key::Char('j') | Key::Down => (nav_down_spec(v, vis), false),
        Key::Char('k') | Key::Up => (nav_up_spec(v, vis), false),
        Key::Char('l') | Key::Right => (expand_row_spec(v, vis), false),
        Key::Char('h') | Key::Left => (collapse_row_spec(v, vis), false),
        Key::Char('v') => (view_all_todo_spec(v, vis), false),
        Key::Char(' ') | Key::Char('x') | Key::Enter => (TodoUiView { items: toggle_done_spec(s, h), ..v }, false),
        Key::Char('a') => (TodoUiView { items: toggle_half_spec(s, h), ..v }, false),
        Key::Char('n') => (TodoUiView { input_mode: true, input: Seq::empty(), cursor: 0, ..v }, false),
        Key::Char('N') => if v.global {
            (TodoUiView { category_mode: true, input: Seq::empty(), cursor: 0, category_error: None, ..v }, false)
        } else {
            (v, false)
        },
        Key::Char('s') => if prompt_row_ok(s, h) && s[h].depth < 2 {
            (TodoUiView { subtask_mode: true, input: Seq::empty(), cursor: 0, ..v }, false)
        } else {
            (v, false)
        },
        Key::Char('d') => if prompt_row_ok(s, h) {
            (TodoUiView { confirm_delete: true, ..v }, false)
        } else {
            (v, false)
        },
        Key::Char('e') => if prompt_row_ok(s, h) {
            (TodoUiView { edit_mode: true, edit_idx: h as usize, input: s[h].text, cursor: encode_utf8(s[h].text).len() as usize, ..v }, false)
        } else {
            (v, false)
        },
        Key::Char('t') => (TodoUiView { flag_mode: true, ..v }, false),
        Key::Char('f') => (focus_todo_spec(v, vis), false),
        Key::Char('/') => (TodoUiView { search_mode: true, search: Seq::empty(), cursor: 0, ..v }, false),
        Key::Char('J') => (after_move(v, move_down_spec(s, h)), false),
        Key::Char('K') => (after_move(v, move_up_spec(s, h)), false),
        Key::Char('?') => (TodoUiView { show_help: true, ..v }, false),
        _ => (v, false),
    }
}

/// Expand every header and parent (`all`), or set them to `value`, or
/// collapse every header but `keep` (`!all`).
fn set_collapse_group(items: &mut Vec<TodoItem>, all: bool, value: bool, keep: Option<usize>)
    ensures
        all ==> todo_views(final(items)@) == all_collapsed(todo_views(old(items)@), value),
        !all ==> todo_views(final(items)@) == focus_headers(
            todo_views(old(items)@),
            match keep {
                Some(k) => Some(k as int),
                None => None,
            },
        ),
{
    let ghost s = todo_views(items@);
    let ghost t = if all {
        all_collapsed(s, value)
    } else {
        focus_headers(
            s,
            match keep {
                Some(k) => Some(k as int),
                None => None,
            },
        )
    };
    let n = items.len();
    let mut i: usize = 0;
    while i < n
        invariant
            s == todo_views(old(items)@),
            n == items@.len(),
            n == s.len(),
            t.len() == n,
            i <= n,
            t == (if all {
                all_collapsed(s, value)
            } else {
                focus_headers(
                    s,
                    match keep {
                        Some(k) => Some(k as int),
                        None => None,
                    },
                )
            }),
            forall|k: int| i <= k < n ==> #[trigger] items@[k]@ == s[k],
            forall|k: int| 0 <= k < i ==> #[trigger] items@[k]@ == t[k],
        decreases n - i,
    {
        proof {
            assert(s[i as int] == old(items)@[i as int]@);
        }
        let ghost before = items@;
        proof {
            assert(before[i as int]@ == s[i as int]);
        }
        if all {
            if items[i].is_header || items[i].has_subtasks {
                items[i].collapsed = value;
            }
        } else if items[i].is_header {
            let b = match keep {
                Some(k) => k != i,
                None => true,
            };
            proof {
                let kk = match keep {
                    Some(k) => Some(k as int),
                    None => None::<int>,
                };
                assert(b == (Some(i as int) != kk));
            }
            items[i].collapsed = b;
        }
        proof {
            assert forall|k: int| 0 <= k < n && k != i implies #[trigger] items@[k] == before[k] by {}
            assert(items@[i as int]@ == t[i as int]);
        }
        i = i + 1;
    }
    proof {
        assert(todo_views(items@) =~= t);
    }
}

/// Record every header's collapse.
fn snapshot_headers(items: &Vec<TodoItem>) -> (r: Vec<(usize, bool)>)
    ensures
        r@ == header_snapshot(todo_views(items@)),
{
    let ghost s = todo_views(items@);
    let mut out: Vec<(usize, bool)> = Vec::new();
    let mut i: usize = 0;
    while i < items.len()
        invariant
            s == todo_views(items@),
            i <= items@.len(),
            out@ == header_snapshot(s.take(i as int)),
        decreases items.len() - i,
    {
        proof {
            assert(s.take(i + 1).drop_last() =~= s.take(i as int));
            assert(s.take(i + 1)[i as int] == items@[i as int]@);
        }
        if items[i].is_header {
            out.push((i, items[i].collapsed));
        }
        i = i + 1;
    }
    proof {
        assert(s.take(items@.len() as int) =~= s);
    }
    out
}

/// Put back recorded collapses.
fn restore_headers(items: &mut Vec<TodoItem>, pre: &Vec<(usize, bool)>)
    ensures
        todo_views(final(items)@) == restore_collapsed(todo_views(old(items)@), pre@),
{
    let ghost s = todo_views(items@);
    let mut k: usize = 0;
    proof {
        assert(pre@.take(0) =~= Seq::<(usize, bool)>::empty());
    }
    while k < pre.len()
        invariant
            s == todo_views(old(items)@),
            k <= pre@.len(),
            todo_views(items@) == restore_collapsed(s, pre@.take(k as int)),
        decreases pre.len() - k,
    {
        proof {
            assert(pre@.take(k + 1).drop_last() =~= pre@.take(k as int));
            lemma_restore_collapsed(s, pre@.take(k as int));
        }
        let (i, b) = pre[k];
        if i < items.len() {
            set_collapsed(items, i, b);
        }
        k = k + 1;
    }
    proof {
        assert(pre@.take(pre@.len() as int) =~= pre@);
    }
}

/// Every row is at most two levels deep.
pub open spec fn depth_ok(s: Seq<TodoView>) -> bool {
    forall|i: int| 0 <= i < s.len() ==> (#[trigger] s[i]).depth <= 2
}

proof fn lemma_depth_ok_concat(a: Seq<TodoView>, b: Seq<TodoView>)
    requires
        depth_ok(a),
        depth_ok(b),
    ensures
        depth_ok(a + b),
{
    assert forall|i: int| 0 <= i < (a + b).len() implies (#[trigger] (a + b)[i]).depth <= 2 by {
        if i < a.len() {
            assert((a + b)[i] == a[i]);
        } else {
            assert((a + b)[i] == b[i - a.len()]);
        }
    }
}

proof fn lemma_depth_ok_sub(s: Seq<TodoView>, i: int, j: int)
    requires
        depth_ok(s),
        0 <= i <= j <= s.len(),
    ensures
        depth_ok(s.subrange(i, j)),
{
    assert forall|k: int| 0 <= k < s.subrange(i, j).len() implies (#[trigger] s.subrange(i, j)[k]).depth <= 2 by {
        assert(s.subrange(i, j)[k] == s[i + k]);
    }
}

proof fn lemma_block_end_le(s: Seq<TodoView>, i: int)
    requires
        0 <= i < s.len(),
    ensures
        i < crate::todo_list::block_end_spec(s, i) <= s.len(),
{
    crate::todo_list::lemma_block_end_bounds(s, i, i + 1);
}

proof fn lemma_moves_keep_depths(s: Seq<TodoView>, h: int)
    requires
        depth_ok(s),
        s.len() > 0,
        s[0].is_header,
    ensures
        move_down_spec(s, h) matches Some((t, n)) ==> depth_ok(t) && t.len() == s.len() && t[0].is_header,
        move_up_spec(s, h) matches Some((t, n)) ==> depth_ok(t) && t.len() == s.len() && t[0].is_header,
{
    if move_down_spec(s, h) is Some {
        let a = crate::todo_list::block_end_spec(s, h);
        lemma_block_end_le(s, h);
        lemma_block_end_le(s, a);
        let b = crate::todo_list::block_end_spec(s, a);
        lemma_depth_ok_sub(s, 0, h);
        lemma_depth_ok_sub(s, a, b);
        lemma_depth_ok_sub(s, h, a);
        lemma_depth_ok_sub(s, b, s.len() as int);
        lemma_depth_ok_concat(s.subrange(0, h), s.subrange(a, b));
        lemma_depth_ok_concat(s.subrange(0, h) + s.subrange(a, b), s.subrange(h, a));
        lemma_depth_ok_concat(s.subrange(0, h) + s.subrange(a, b) + s.subrange(h, a), s.subrange(b, s.len() as int));
        let t = s.subrange(0, h) + s.subrange(a, b) + s.subrange(h, a) + s.subrange(b, s.len() as int);
        assert(h > 0);
        assert(t[0] == s[0]);
    }
    if move_up_spec(s, h) is Some {
        let p = crate::todo_edit::prev_sibling(s, h, h)->0;
        lemma_prev_sibling_bound(s, h, h);
        let a = crate::todo_list::block_end_spec(s, h);
        lemma_block_end_le(s, h);
        lemma_depth_ok_sub(s, 0, p);
        lemma_depth_ok_sub(s, h, a);
        lemma_depth_ok_sub(s, p, h);
        lemma_depth_ok_sub(s, a, s.len() as int);
        lemma_depth_ok_concat(s.subrange(0, p), s.subrange(h, a));
        lemma_depth_ok_concat(s.subrange(0, p) + s.subrange(h, a), s.subrange(p, h));
        lemma_depth_ok_concat(s.subrange(0, p) + s.subrange(h, a) + s.subrange(p, h), s.subrange(a, s.len() as int));
        let t = s.subrange(0, p) + s.subrange(h, a) + s.subrange(p, h) + s.subrange(a, s.len() as int);
        assert(p > 0);
        assert(t[0] == s[0]);
    }
}

proof fn lemma_prev_sibling_bound(s: Seq<TodoView>, i: int, j: int)
    requires
        0 <= j <= s.len(),
    ensures
        crate::todo_edit::prev_sibling(s, i, j) matches Some(p) ==> 0 <= p < j && !s[p].is_header,
    decreases j,
{
    if j > 0 && !(s[j - 1].is_header || s[j - 1].depth < s[i].depth) && s[j - 1].depth != s[i].depth {
        lemma_prev_sibling_bound(s, i, j - 1);
    }
}

/// Move the selection from row `here` to row `target`; returns the new
/// selection.
fn hop_rows(items: &mut Vec<TodoItem>, focus: bool, sel: usize, here: usize, target: usize, fallback: usize) -> (r: usize)
    requires
        here < old(items)@.len(),
        target < old(items)@.len(),
    ensures
        (todo_views(final(items)@), r) == todo_hop(todo_views(old(items)@), here as int, target, focus, sel, fallback),
        same_but_collapse(todo_views(old(items)@), todo_views(final(items)@)),
{
    let ghost s = todo_views(items@);
    if focus {
        let oh = find_header(items, here);
        let nh = find_header(items, target);
        proof {
            lemma_header_of_bound(s, here as int);
            lemma_header_of_bound(s, target as int);
        }
        if nh != oh {
            match oh {
                Some(o) => {
                    set_collapsed(items, o, true);
                },
                None => {},
            }
            match nh {
                Some(n) => {
                    set_collapsed(items, n, false);
                },
                None => {},
            }
            let nv = get_visible_indices(items.as_slice());
            return match position_of(nv.as_slice(), target) {
                Some(p) => p,
                None => sel,
            };
        }
    }
    fallback
}

/// Whether some header or parent is collapsed.
fn has_collapsed(items: &Vec<TodoItem>) -> (r: bool)
    ensures
        r == any_collapsed(todo_views(items@)),
{
    let ghost s = todo_views(items@);
    let mut i: usize = 0;
    while i < items.len()
        invariant
            s == todo_views(items@),
            i <= items@.len(),
            forall|k: int| 0 <= k < i ==> !(((#[trigger] s[k]).is_header || s[k].has_subtasks) && s[k].collapsed),
        decreases items.len() - i,
    {
        proof {
            assert(s[i as int] == items@[i as int]@);
        }
        if (items[i].is_header || items[i].has_subtasks) && items[i].collapsed {
            return true;
        }
        i = i + 1;
    }
    false
}

/// Expand everything if something is collapsed, else collapse every
/// header and parent.
fn toggle_all_collapsed(items: &mut Vec<TodoItem>)
    ensures
        todo_views(final(items)@) == all_collapsed(todo_views(old(items)@), !any_collapsed(todo_views(old(items)@))),
        same_but_collapse(todo_views(old(items)@), todo_views(final(items)@)),
{
    let any = has_collapsed(items);
    set_collapse_group(items, true, !any, None);
}

impl TodoUi {
    fn key_nav_down(&mut self, vis: &[usize])
        requires
            todo_ui_wf(old(self)@),
            !old(self)@.search_mode,
            !prompt_open(old(self)@),
            forall|k: int| 0 <= k < vis@.len() ==> (#[trigger] vis@[k] as int) < old(self)@.items.len(),
        ensures
            final(self)@ == nav_down_spec(old(self)@, vis@),
            todo_ui_wf(final(self)@),
    {
        let ghost v = self@;
        if self.selected < vis.len() && self.selected + 1 < vis.len() {
            let sel = hop_rows(&mut self.items, self.focus_active, self.selected, vis[self.selected], vis[self.selected + 1], self.selected + 1);
            self.selected = sel;
            proof {
                lemma_collapse_keeps_depths(v.items, self@.items);
            }
        }
    }

    fn key_nav_up(&mut self, vis: &[usize])
        requires
            todo_ui_wf(old(self)@),
            !old(self)@.search_mode,
            !prompt_open(old(self)@),
            forall|k: int| 0 <= k < vis@.len() ==> (#[trigger] vis@[k] as int) < old(self)@.items.len(),
        ensures
            final(self)@ == nav_up_spec(old(self)@, vis@),
            todo_ui_wf(final(self)@),
    {
        let ghost v = self@;
        if self.selected > 0 && self.selected - 1 < vis.len() {
            let h = if self.selected < vis.len() {
                vis[self.selected]
            } else {
                0
            };
            let sel = hop_rows(&mut self.items, self.focus_active, self.selected, h, vis[self.selected - 1], self.selected - 1);
            self.selected = sel;
            proof {
                lemma_collapse_keeps_depths(v.items, self@.items);
            }
        }
    }

    fn key_collapse(&mut self, vis: &[usize], expand: bool)
        requires
            todo_ui_wf(old(self)@),
            !old(self)@.search_mode,
            !prompt_open(old(self)@),
            forall|k: int| 0 <= k < vis@.len() ==> (#[trigger] vis@[k] as int) < old(self)@.items.len(),
        ensures
            expand ==> final(self)@ == expand_row_spec(old(self)@, vis@),
            !expand ==> final(self)@ == collapse_row_spec(old(self)@, vis@),
            todo_ui_wf(final(self)@),
    {
        let ghost v = self@;
        let h = if self.selected < vis.len() {
            vis[self.selected]
        } else {
            0
        };
        if h < self.items.len() {
            proof {
                assert(v.items[h as int] == self.items@[h as int]@);
            }
            if expand {
                if self.items[h].collapsed {
                    set_collapsed(&mut self.items, h, false);
                    self.focus_active = false;
                }
            } else if !self.items[h].collapsed && (self.items[h].has_subtasks || self.items[h].is_header) {
                set_collapsed(&mut self.items, h, true);
                self.focus_active = false;
            }
            proof {
                assert forall|k: int| 0 <= k < self@.items.len() implies (#[trigger] self@.items[k]).depth <= 2 by {
                    assert(self@.items[k].depth == v.items[k].depth);
                }
            }
        }
    }

    fn key_view_all(&mut self, vis: &[usize])
        requires
            todo_ui_wf(old(self)@),
            !old(self)@.search_mode,
            !prompt_open(old(self)@),
            forall|k: int| 0 <= k < vis@.len() ==> (#[trigger] vis@[k] as int) < old(self)@.items.len(),
        ensures
            final(self)@ == view_all_todo_spec(old(self)@, vis@),
            todo_ui_wf(final(self)@),
    {
        let ghost v = self@;
        let h = if self.selected < vis.len() {
            vis[self.selected]
        } else {
            0
        };
        let cur = match find_header(&self.items, h) {
            Some(c) => c,
            None => 0,
        };
        toggle_all_collapsed(&mut self.items);
        let nv = get_visible_indices(self.items.as_slice());
        match position_of(nv.as_slice(), cur) {
            Some(p) => {
                self.offset = 0;
                self.selected = p;
            },
            None => {},
        }
        self.focus_active = false;
        proof {
            lemma_collapse_keeps_depths(v.items, self@.items);
        }
    }

    fn key_check(&mut self, vis: &[usize], half: bool)
        requires
            todo_ui_wf(old(self)@),
            !old(self)@.search_mode,
            !prompt_open(old(self)@),
            forall|k: int| 0 <= k < vis@.len() ==> (#[trigger] vis@[k] as int) < old(self)@.items.len(),
        ensures
            !half ==> final(self)@ == (TodoUiView { items: toggle_done_spec(old(self)@.items, row_at_sel(vis@, old(self)@.selected) as int), ..old(self)@ }),
            half ==> final(self)@ == (TodoUiView { items: toggle_half_spec(old(self)@.items, row_at_sel(vis@, old(self)@.selected) as int), ..old(self)@ }),
            todo_ui_wf(final(self)@),
    {
        let ghost v = self@;
        let h = if self.selected < vis.len() {
            vis[self.selected]
        } else {
            0
        };
        if half {
            toggle_half(&mut self.items, h);
        } else {
            toggle_done(&mut self.items, h);
        }
        proof {
            assert forall|k: int| 0 <= k < self@.items.len() implies (#[trigger] self@.items[k]).depth <= 2 by {
                assert(self@.items[k].depth == v.items[k].depth);
            }
        }
    }

    fn key_focus(&mut self, vis: &[usize])
        requires
            todo_ui_wf(old(self)@),
            !old(self)@.search_mode,
            !prompt_open(old(self)@),
            forall|k: int| 0 <= k < vis@.len() ==> (#[trigger] vis@[k] as int) < old(self)@.items.len(),
        ensures
            final(self)@ == focus_todo_spec(old(self)@, vis@),
            todo_ui_wf(final(self)@),
    {
        let ghost v = self@;
        let h = if self.selected < vis.len() {
            vis[self.selected]
        } else {
            0
        };
        if h < self.items.len() {
            if self.focus_active {
                let cur = match find_header(&self.items, h) {
                    Some(c) => c,
                    None => h,
                };
                restore_headers(&mut self.items, &self.pre_focus_collapsed);
                proof {
                    lemma_restore_collapsed(v.items, v.pre_focus);
                    lemma_collapse_keeps_depths(v.items, self@.items);
                }
                let nv = get_visible_indices(self.items.as_slice());
                match position_of(nv.as_slice(), cur) {
                    Some(p) => {
                        self.selected = p;
                    },
                    None => {},
                }
                self.focus_active = false;
            } else {
                let pre = snapshot_headers(&self.items);
                let fh = find_header(&self.items, h);
                set_collapse_group(&mut self.items, false, false, fh);
                self.pre_focus_collapsed = pre;
                self.focus_active = true;
                proof {
                    assert forall|k: int| 0 <= k < self@.items.len() implies (#[trigger] self@.items[k]).depth <= 2 by {
                        assert(self@.items[k].depth == v.items[k].depth);
                    }
                }
            }
        }
    }

    fn key_move(&mut self, vis: &[usize], down: bool)
        requires
            todo_ui_wf(old(self)@),
            !old(self)@.search_mode,
            !prompt_open(old(self)@),
            forall|k: int| 0 <= k < vis@.len() ==> (#[trigger] vis@[k] as int) < old(self)@.items.len(),
        ensures
            down ==> final(self)@ == after_move(old(self)@, move_down_spec(old(self)@.items, row_at_sel(vis@, old(self)@.selected) as int)),
            !down ==> final(self)@ == after_move(old(self)@, move_up_spec(old(self)@.items, row_at_sel(vis@, old(self)@.selected) as int)),
            todo_ui_wf(final(self)@),
    {
        let ghost v = self@;
        let h = if self.selected < vis.len() {
            vis[self.selected]
        } else {
            0
        };
        proof {
            lemma_moves_keep_depths(v.items, h as int);
        }
        let m = if down {
            move_block_down(&mut self.items, h)
        } else {
            move_block_up(&mut self.items, h)
        };
        match m {
            Some(n) => {
                let nv = get_visible_indices(self.items.as_slice());
                match position_of(nv.as_slice(), n) {
                    Some(p) => {
                        self.selected = p;
                    },
                    None => {},
                }
            },
            None => {},
        }
    }

    fn key_edit(&mut self, vis: &[usize])
        requires
            todo_ui_wf(old(self)@),
            !old(self)@.search_mode,
            !prompt_open(old(self)@),
            forall|k: int| 0 <= k < vis@.len() ==> (#[trigger] vis@[k] as int) < old(self)@.items.len(),
        ensures
            final(self)@ == todo_normal_key(old(self)@, vis@, Key::Char('e')).0,
            todo_ui_wf(final(self)@),
    {
        let h = if self.selected < vis.len() {
            vis[self.selected]
        } else {
            0
        };
        if h < self.items.len() && !self.items[h].is_header && !self.items[h].is_code_todo {
            self.edit_mode = true;
            self.edit_idx = h;
            self.input_buffer = string_of(chars_of(self.items[h].text.as_str()).as_slice());
            self.cursor_pos = self.input_buffer.as_str().as_bytes().len();
            proof {
                crate::input::lemma_boundary_prefix(self@.input, encode_utf8(self@.input).len() as int);
                assert(self@.input.take(self@.input.len() as int) =~= self@.input);
                assert(crate::input::prefix_bytes(self@.input, self@.input.len() as int) == encode_utf8(self@.input).len());
            }
        }
    }

    /// A key in normal mode on the filtered list `vis`; returns whether the
    /// view quits.
    #[verifier::rlimit(60)]
    pub fn normal_key(&mut self, vis: &[usize], key: Key) -> (r: bool)
        requires
            todo_ui_wf(old(self)@),
            !old(self)@.search_mode,
            !prompt_open(old(self)@),
            forall|k: int| 0 <= k < vis@.len() ==> (#[trigger] vis@[k] as int) < old(self)@.items.len(),
        ensures
            (final(self)@, r) == todo_normal_key(old(self)@, vis@, key),
            todo_ui_wf(final(self)@),
    {
        let h = if self.selected < vis.len() {
            vis[self.selected]
        } else {
            0
        };
        match key {
            Key::Char('q') => true,
            Key::Esc => {
                if !self.search_buffer.as_str().is_empty() {
                    self.search_buffer = String::new();
                    false
                } else {
                    true
                }
            },
            Key::Char('j') | Key::Down => {
                self.key_nav_down(vis);
                false
            },
            Key::Char('k') | Key::Up => {
                self.key_nav_up(vis);
                false
            },
            Key::Char('l') | Key::Right => {
                self.key_collapse(vis, true);
                false
            },
            Key::Char('h') | Key::Left => {
                self.key_collapse(vis, false);
                false
            },
            Key::Char('v') => {
                self.key_view_all(vis);
                false
            },
            Key::Char(' ') | Key::Char('x') | Key::Enter => {
                self.key_check(vis, false);
                false
            },
            Key::Char('a') => {
                self.key_check(vis, true);
                false
            },
            Key::Char('n') => {
                self.input_mode = true;
                self.input_buffer = String::new();
                self.cursor_pos = 0;
                false
            },
            Key::Char('N') => {
                if self.global {
                    self.category_mode = true;
                    self.input_buffer = String::new();
                    self.cursor_pos = 0;
                    self.category_error = None;
                }
                false
            },
            Key::Char('s') => {
                if h < self.items.len() && !self.items[h].is_header && !self.items[h].is_code_todo
                    && self.items[h].depth < 2 {
                    self.subtask_mode = true;
                    self.input_buffer = String::new();
                    self.cursor_pos = 0;
                }
                false
            },
            Key::Char('d') => {
                if h < self.items.len() && !self.items[h].is_header && !self.items[h].is_code_todo {
                    self.confirm_delete = true;
                }
                false
            },
            Key::Char('e') => {
                self.key_edit(vis);
                false
            },
            Key::Char('t') => {
                self.flag_mode = true;
                false
            },
            Key::Char('f') => {
                self.key_focus(vis);
                false
            },
            Key::Char('/') => {
                self.search_mode = true;
                self.search_buffer = String::new();
                self.cursor_pos = 0;
                false
            },
            Key::Char('J') => {
                self.key_move(vis, true);
                false
            },
            Key::Char('K') => {
                self.key_move(vis, false);
                false
            },
            Key::Char('?') => {
                self.show_help = true;
                false
            },
            _ => false,
        }
    }
}

// ---------------------------------------------------------------------------
// Prompts, tag mode and dispatch
// ---------------------------------------------------------------------------

/// What the todo view does, as a value.
pub enum TodoOutcome {
    Stay,
    Quit,
    CreateCategory(Seq<char>),
}

/// The outcome an action stands for.
pub open spec fn todo_outcome(a: TodoAction) -> TodoOutcome {
    match a {
        TodoAction::Stay => TodoOutcome::Stay,
        TodoAction::Quit => TodoOutcome::Quit,
        TodoAction::CreateCategory(n) => TodoOutcome::CreateCategory(n@),
    }
}

/// `y` / Enter in the delete prompt: the selected todo of the unfiltered
/// list goes with its subtasks; a selection past the shorter list moves to
/// its last row.
pub open spec fn confirm_delete_spec(v: TodoUiView) -> TodoUiView {
    let ri = row_at_sel(visible_indices(v.items), v.selected) as int;
    if ri < v.items.len() && !v.items[ri].is_header {
        let t = delete_spec(v.items, ri);
        let nv = visible_indices(t);
        TodoUiView {
            items: t,
            selected: if v.selected >= nv.len() && nv.len() > 0 {
                (nv.len() - 1) as usize
            } else {
                v.selected
            },
            confirm_delete: false,
            ..v
        }
    } else {
        TodoUiView { confirm_delete: false, ..v }
    }
}

/// A prompt closed: its text cleared and the cursor back at 0.
pub open spec fn prompt_closed(v: TodoUiView) -> TodoUiView {
    TodoUiView { input_mode: false, subtask_mode: false, edit_mode: false, input: Seq::empty(), cursor: 0, ..v }
}

/// Enter in the new-todo prompt: a non-empty text becomes a todo at the end
/// of the selection's section, in that section's file, and is selected.
pub open spec fn input_enter_spec(v: TodoUiView) -> TodoUiView {
    if v.input.len() > 0 {
        let s = v.items;
        let ri = row_at_sel(visible_indices(s), v.selected) as int;
        let (src, proj) = section_of(s, ri);
        let at = todo_insert_at(s, ri);
        let t = s.insert(at, new_todo(v.input, src, proj, 0));
        prompt_closed(TodoUiView {
            items: t,
            selected: match index_in(visible_indices(t), at as usize) {
                Some(p) => p,
                None => v.selected,
            },
            ..v
        })
    } else {
        prompt_closed(v)
    }
}

/// Enter in the subtask prompt: under a todo at depth 0 or 1 a non-empty
/// text becomes its last subtask and is selected; on a header or a deepest
/// todo the prompt just closes (the cursor staying where it was).
pub open spec fn subtask_enter_spec(v: TodoUiView) -> TodoUiView {
    if v.input.len() > 0 {
        let s = v.items;
        let ri = row_at_sel(visible_indices(s), v.selected) as int;
        if s[ri].is_header || s[ri].depth >= 2 {
            TodoUiView { input: Seq::empty(), subtask_mode: false, ..v }
        } else {
            let t = subtask_spec(s, ri, v.input);
            let at = scope_end(s, ri, ri + 1);
            prompt_closed(TodoUiView {
                items: t,
                selected: match index_in(visible_indices(t), at as usize) {
                    Some(p) => p,
                    None => v.selected,
                },
                ..v
            })
        }
    } else {
        prompt_closed(v)
    }
}

/// Enter in the edit prompt: a non-empty text replaces the todo's text.
pub open spec fn edit_enter_spec(v: TodoUiView) -> TodoUiView {
    if v.input.len() > 0 && (v.edit_idx as int) < v.items.len() {
        prompt_closed(TodoUiView { items: v.items.update(v.edit_idx as int, TodoView { text: v.input, ..v.items[v.edit_idx as int] }), ..v })
    } else {
        prompt_closed(v)
    }
}

/// The category name typed: the trimmed input.
pub open spec fn category_name(v: TodoUiView) -> Seq<char> {
    trim(v.input)
}

/// Enter in the category prompt: an empty name or one with `/` or `\` is
/// refused with a message; any other name is handed on to be created.
pub open spec fn category_enter_spec(v: TodoUiView) -> (TodoUiView, TodoOutcome) {
    let name = category_name(v);
    if name.len() == 0 {
        (TodoUiView { category_error: Some(CategoryError::Empty), ..v }, TodoOutcome::Stay)
    } else if name.contains('/') || name.contains('\\') {
        (TodoUiView { category_error: Some(CategoryError::HasSlash), ..v }, TodoOutcome::Stay)
    } else {
        (v, TodoOutcome::CreateCategory(name))
    }
}

/// A key in one of the prompts: Enter commits, Esc cancels, the editing
/// keys edit (typing clears a category error).
pub open spec fn prompt_key_spec(v: TodoUiView, key: Key) -> (TodoUiView, TodoOutcome) {
    if v.category_mode {
        match key {
            Key::Enter => category_enter_spec(v),
            Key::Esc => (TodoUiView { input: Seq::empty(), cursor: 0, category_mode: false, category_error: None, ..v }, TodoOutcome::Stay),
            _ => {
                let (t, c) = edit_key_spec(v.input, v.cursor, key);
                (
                    TodoUiView {
                        input: t,
                        cursor: c,
                        category_error: if key is Char {
                            None
                        } else {
                            v.category_error
                        },
                        ..v
                    },
                    TodoOutcome::Stay,
                )
            },
        }
    } else {
        match key {
            Key::Enter => (
                if v.input_mode {
                    input_enter_spec(v)
                } else if v.subtask_mode {
                    subtask_enter_spec(v)
                } else {
                    edit_enter_spec(v)
                },
                TodoOutcome::Stay,
            ),
            Key::Esc => (prompt_closed(v), TodoOutcome::Stay),
            _ => {
                let (t, c) = edit_key_spec(v.input, v.cursor, key);
                (TodoUiView { input: t, cursor: c, ..v }, TodoOutcome::Stay)
            },
        }
    }
}

/// Toggle tag `d` on the selected todo of the list `vis` (not on headers or
/// code TODOs).
pub open spec fn todo_tag_spec(v: TodoUiView, vis: Seq<usize>, d: int) -> TodoUiView {
    let i = row_at_sel(vis, v.selected) as int;
    if i < v.items.len() && !v.items[i].is_header && !v.items[i].is_code_todo {
        TodoUiView { items: v.items.update(i, TodoView { flags: v.items[i].flags ^ tag_bit(d), ..v.items[i] }), ..v }
    } else {
        v
    }
}

/// A key press in the todo view: Ctrl+C quits; an open help closes; the
/// delete prompt takes `y`/Enter or cancels; tag mode takes its keys; the
/// filter field takes every key while typed in (and the selection goes back
/// to the first row); an open prompt takes its keys; the `:` command line
/// takes its keys and quits on a quit command; the rest is normal mode.
pub open spec fn todo_key_spec(v: TodoUiView, key: Key, ctrl_c: bool) -> (TodoUiView, TodoOutcome) {
    let vis = visible_filtered(v.items, v.search);
    if ctrl_c {
        (v, TodoOutcome::Quit)
    } else if v.show_help {
        (TodoUiView { show_help: false, ..v }, TodoOutcome::Stay)
    } else if v.confirm_delete {
        if key == Key::Char('y') || key == Key::Enter {
            (confirm_delete_spec(v), TodoOutcome::Stay)
        } else {
            (TodoUiView { confirm_delete: false, ..v }, TodoOutcome::Stay)
        }
    } else if v.flag_mode && !crate::tree_ui::tag_mode_passes(key) {
        (
            match crate::tree_ui::digit_tag(key) {
                Some(d) => todo_tag_spec(v, vis, d),
                None => if key == Key::Char('t') || key == Key::Esc {
                    TodoUiView { flag_mode: false, ..v }
                } else {
                    v
                },
            },
            TodoOutcome::Stay,
        )
    } else {
        let v1 = if v.flag_mode && key == Key::Char('/') {
            TodoUiView { flag_mode: false, ..v }
        } else {
            v
        };
        todo_key_rest(v1, key)
    }
}

/// A key once the help, the delete prompt and tag mode have let it through:
/// the filter field, an open prompt, the `:` command line, or normal mode.
pub open spec fn todo_key_rest(v1: TodoUiView, key: Key) -> (TodoUiView, TodoOutcome) {
    if v1.search_mode {
        let f = search_key_spec(FieldView { typing: true, text: v1.search, cursor: v1.cursor }, key);
        (TodoUiView { search_mode: f.typing, search: f.text, cursor: f.cursor, selected: 0, ..v1 }, TodoOutcome::Stay)
    } else if prompt_open(v1) {
        prompt_key_spec(v1, key)
    } else {
        let (act, buf, cmd) = vim_step(v1.vim_active, v1.vim_buffer, key);
        let v2 = TodoUiView { vim_active: act, vim_buffer: buf, ..v1 };
        match cmd {
            Some(c) => (v2, if VimCommandMode::quit_spec(c) {
                TodoOutcome::Quit
            } else {
                TodoOutcome::Stay
            }),
            None => if act {
                (v2, TodoOutcome::Stay)
            } else {
                let (v3, quit) = todo_normal_key(v2, visible_filtered(v2.items, v2.search), key);
                (v3, if quit {
                    TodoOutcome::Quit
                } else {
                    TodoOutcome::Stay
                })
            },
        }
    }
}

/// The keys typed into a prompt can be applied: typing or deleting needs
/// the cursor on a character boundary of the prompt text (otherwise the
/// text cannot be edited at the cursor).
pub open spec fn prompt_key_ok(v: TodoUiView, key: Key) -> bool {
    (!v.search_mode && !v.show_help && !v.confirm_delete && prompt_open(v) && crate::input::edits_at_cursor(key, v.cursor))
        ==> is_char_boundary(encode_utf8(v.input), v.cursor as int)
}

proof fn lemma_visible_indices_below(s: Seq<TodoView>)
    ensures
        forall|k: int| 0 <= k < visible_indices(s).len() ==> (#[trigger] visible_indices(s)[k] as int) < s.len(),
{
    crate::todo_list::lemma_visible_scan_bounds(s, s.len() as int);
}

proof fn lemma_visible_filtered_below(s: Seq<TodoView>, search: Seq<char>)
    ensures
        forall|k: int| 0 <= k < visible_filtered(s, search).len() ==> (#[trigger] visible_filtered(s, search)[k] as int) < s.len(),
{
    lemma_visible_indices_below(s);
    let (tq, ts) = filter_sets(search);
    if !(tq.len() == 0 && ts.len() == 0) {
        crate::tree_ui::lemma_filter_below(visible_indices(s), crate::todo_list::keep_pred(s, tq, ts), s.len() as int);
    }
}

proof fn lemma_depths_update(s: Seq<TodoView>, i: int, t: TodoView)
    requires
        depth_ok(s),
        0 <= i < s.len(),
        t.depth == s[i].depth,
    ensures
        depth_ok(s.update(i, t)),
{
    assert forall|k: int| 0 <= k < s.update(i, t).len() implies (#[trigger] s.update(i, t)[k]).depth <= 2 by {
        if k != i {
            assert(s.update(i, t)[k] == s[k]);
        }
    }
}

proof fn lemma_depths_insert(s: Seq<TodoView>, at: int, t: TodoView)
    requires
        depth_ok(s),
        0 <= at <= s.len(),
        t.depth <= 2,
    ensures
        depth_ok(s.insert(at, t)),
{
    assert forall|k: int| 0 <= k < s.insert(at, t).len() implies (#[trigger] s.insert(at, t)[k]).depth <= 2 by {
        if k < at {
            assert(s.insert(at, t)[k] == s[k]);
        } else if k > at {
            assert(s.insert(at, t)[k] == s[k - 1]);
        }
    }
}

/// Delete row `ri` (a todo), keeping the list's shape.
fn delete_row(items: &mut Vec<TodoItem>, ri: usize)
    requires
        0 < ri < old(items)@.len(),
        !old(items)@[ri as int].is_header,
        depth_ok(todo_views(old(items)@)),
        old(items)@[0].is_header,
    ensures
        todo_views(final(items)@) == delete_spec(todo_views(old(items)@), ri as int),
        depth_ok(todo_views(final(items)@)),
        final(items)@.len() > 0,
        final(items)@[0].is_header,
{
    let ghost s = todo_views(items@);
    proof {
        assert(s[ri as int] == items@[ri as int]@);
        assert(s[0] == items@[0]@);
    }
    delete_todo(items, ri);
    proof {
        let t = todo_views(items@);
        crate::todo::lemma_scope_bounds(s, ri as int, ri + 1);
        lemma_depth_ok_sub(s, 0, ri as int);
        let e = if s[ri as int].has_subtasks {
            scope_end(s, ri as int, ri + 1)
        } else {
            ri + 1
        };
        lemma_depth_ok_sub(s, e, s.len() as int);
        lemma_depth_ok_concat(s.subrange(0, ri as int), s.subrange(e, s.len() as int));
        assert(t[0] == s[0]);
        assert(t[0] == items@[0]@);
    }
}

/// Add a todo with text `text` below the row selected in the unfiltered
/// list; returns the new selection.
fn add_todo_below(items: &mut Vec<TodoItem>, sel: usize, text: &str) -> (r: usize)
    requires
        depth_ok(todo_views(old(items)@)),
        old(items)@.len() > 0,
        old(items)@[0].is_header,
    ensures
        ({
            let s = todo_views(old(items)@);
            let ri = row_at_sel(visible_indices(s), sel) as int;
            let (src, proj) = section_of(s, ri);
            let at = todo_insert_at(s, ri);
            let t = s.insert(at, new_todo(text@, src, proj, 0));
            &&& todo_views(final(items)@) == t
            &&& r == match index_in(visible_indices(t), at as usize) {
                Some(p) => p,
                None => sel,
            }
        }),
        depth_ok(todo_views(final(items)@)),
        final(items)@.len() > 0,
        final(items)@[0].is_header,
{
    let ghost s = todo_views(items@);
    let vis = get_visible_indices(items.as_slice());
    proof {
        lemma_visible_indices_below(s);
    }
    let ri = if sel < vis.len() {
        vis[sel]
    } else {
        0
    };
    let (source, project) = find_section(items.as_slice(), ri);
    let at = insert_todo(items, ri, text, source.as_str(), project.as_str());
    proof {
        crate::todo_edit::lemma_next_header_bounds(s, ri + 1);
        lemma_depths_insert(s, at as int, new_todo(text@, source@, project@, 0));
        assert(todo_views(items@)[0] == s[0]);
        assert(todo_views(items@)[0] == items@[0]@);
        assert(s[0] == old(items)@[0]@);
    }
    let nv = get_visible_indices(items.as_slice());
    match position_of(nv.as_slice(), at) {
        Some(p) => p,
        None => sel,
    }
}

impl TodoUi {
    #[verifier::rlimit(40)]
    fn do_confirm_delete(&mut self)
        requires
            todo_ui_wf(old(self)@),
        ensures
            final(self)@ == confirm_delete_spec(old(self)@),
            todo_ui_wf(final(self)@),
    {
        let ghost v = self@;
        let vis = get_visible_indices(self.items.as_slice());
        proof {
            lemma_visible_indices_below(v.items);
        }
        let ri = if self.selected < vis.len() {
            vis[self.selected]
        } else {
            0
        };
        if ri < self.items.len() && !self.items[ri].is_header {
            proof {
                assert(v.items[ri as int] == self.items@[ri as int]@);
                assert(v.items[0] == self.items@[0]@);
                assert(ri > 0);
            }
            delete_row(&mut self.items, ri);
            let nv = get_visible_indices(self.items.as_slice());
            if self.selected >= nv.len() && nv.len() > 0 {
                self.selected = nv.len() - 1;
            }
        }
        self.confirm_delete = false;
    }

    #[verifier::rlimit(40)]
    fn do_input_enter(&mut self)
        requires
            todo_ui_wf(old(self)@),
        ensures
            final(self)@ == input_enter_spec(old(self)@),
            todo_ui_wf(final(self)@),
    {
        let ghost v = self@;
        if !self.input_buffer.as_str().is_empty() {
            proof {
                assert(v.items[0] == self.items@[0]@);
            }
            let sel = add_todo_below(&mut self.items, self.selected, self.input_buffer.as_str());
            self.selected = sel;
            proof {
                assert(self@.items[0] == self.items@[0]@);
            }
        }
        self.input_buffer = String::new();
        self.cursor_pos = 0;
        self.input_mode = false;
        self.subtask_mode = false;
        self.edit_mode = false;
    }

    fn do_subtask_enter(&mut self)
        requires
            todo_ui_wf(old(self)@),
        ensures
            final(self)@ == subtask_enter_spec(old(self)@),
            todo_ui_wf(final(self)@),
    {
        let ghost v = self@;
        if !self.input_buffer.as_str().is_empty() {
            let vis = get_visible_indices(self.items.as_slice());
            proof {
                lemma_visible_indices_below(v.items);
            }
            let ri = if self.selected < vis.len() {
                vis[self.selected]
            } else {
                0
            };
            proof {
                assert(v.items[ri as int] == self.items@[ri as int]@);
            }
            if self.items[ri].is_header || self.items[ri].depth >= 2 {
                self.input_buffer = String::new();
                self.subtask_mode = false;
                return;
            }
            let at = insert_subtask(&mut self.items, ri, self.input_buffer.as_str());
            proof {
                crate::todo::lemma_scope_bounds(v.items, ri as int, ri + 1);
                let p = v.items[ri as int];
                let u = v.items.update(ri as int, TodoView { has_subtasks: true, collapsed: false, ..p });
                lemma_depths_update(v.items, ri as int, TodoView { has_subtasks: true, collapsed: false, ..p });
                lemma_depths_insert(u, at as int, new_todo(v.input, p.source, p.project, (p.depth + 1) as u8));
                assert(ri > 0);
                assert(self@.items[0] == v.items[0]);
            }
            let nv = get_visible_indices(self.items.as_slice());
            match position_of(nv.as_slice(), at) {
                Some(p) => {
                    self.selected = p;
                },
                None => {},
            }
        }
        self.input_buffer = String::new();
        self.cursor_pos = 0;
        self.input_mode = false;
        self.subtask_mode = false;
        self.edit_mode = false;
    }

    fn do_edit_enter(&mut self)
        requires
            todo_ui_wf(old(self)@),
        ensures
            final(self)@ == edit_enter_spec(old(self)@),
            todo_ui_wf(final(self)@),
    {
        let ghost v = self@;
        if !self.input_buffer.as_str().is_empty() && self.edit_idx < self.items.len() {
            let t = string_of(chars_of(self.input_buffer.as_str()).as_slice());
            let i = self.edit_idx;
            self.items[i].text = t;
            proof {
                assert(self@.items =~= v.items.update(i as int, TodoView { text: v.input, ..v.items[i as int] }));
                lemma_depths_update(v.items, i as int, TodoView { text: v.input, ..v.items[i as int] });
            }
        }
        self.input_buffer = String::new();
        self.cursor_pos = 0;
        self.input_mode = false;
        self.subtask_mode = false;
        self.edit_mode = false;
    }

    fn do_category_enter(&mut self) -> (r: TodoAction)
        requires
            todo_ui_wf(old(self)@),
        ensures
            (final(self)@, todo_outcome(r)) == category_enter_spec(old(self)@),
            todo_ui_wf(final(self)@),
    {
        let name = trim_str(self.input_buffer.as_str());
        let c = chars_of(name.as_str());
        if c.len() == 0 {
            self.category_error = Some(CategoryError::Empty);
            return TodoAction::Stay;
        }
        let mut slash = false;
        let mut i: usize = 0;
        while i < c.len()
            invariant
                i <= c@.len(),
                slash == exists|k: int| 0 <= k < i && (c@[k] == '/' || c@[k] == '\\'),
            decreases c.len() - i,
        {
            if c[i] == '/' || c[i] == '\\' {
                slash = true;
            }
            i = i + 1;
        }
        proof {
            if slash {
                let k = choose|k: int| 0 <= k < c@.len() && (c@[k] == '/' || c@[k] == '\\');
                if c@[k] == '/' {
                    assert(c@.contains('/'));
                } else {
                    assert(c@.contains('\\'));
                }
            } else {
                if c@.contains('/') {
                    let k = choose|k: int| 0 <= k < c@.len() && c@[k] == '/';
                }
                if c@.contains('\\') {
                    let k = choose|k: int| 0 <= k < c@.len() && c@[k] == '\\';
                }
            }
        }
        if slash {
            self.category_error = Some(CategoryError::HasSlash);
            return TodoAction::Stay;
        }
        TodoAction::CreateCategory(name)
    }

    #[verifier::rlimit(60)]
    fn do_prompt_key(&mut self, key: Key) -> (r: TodoAction)
        requires
            todo_ui_wf(old(self)@),
            !old(self)@.search_mode,
            prompt_open(old(self)@),
            crate::input::edits_at_cursor(key, old(self)@.cursor) ==> is_char_boundary(encode_utf8(old(self)@.input), old(self)@.cursor as int),
            encode_utf8(old(self)@.input).len() + 4 <= usize::MAX,
        ensures
            (final(self)@, todo_outcome(r)) == prompt_key_spec(old(self)@, key),
            todo_ui_wf(final(self)@),
    {
        if self.category_mode {
            match key {
                Key::Enter => self.do_category_enter(),
                Key::Esc => {
                    self.input_buffer = String::new();
                    self.cursor_pos = 0;
                    self.category_mode = false;
                    self.category_error = None;
                    TodoAction::Stay
                },
                _ => {
                    edit_key(&mut self.input_buffer, &mut self.cursor_pos, key);
                    if let Key::Char(_) = key {
                        self.category_error = None;
                    }
                    TodoAction::Stay
                },
            }
        } else {
            match key {
                Key::Enter => {
                    if self.input_mode {
                        self.do_input_enter();
                    } else if self.subtask_mode {
                        self.do_subtask_enter();
                    } else {
                        self.do_edit_enter();
                    }
                    TodoAction::Stay
                },
                Key::Esc => {
                    self.input_buffer = String::new();
                    self.cursor_pos = 0;
                    self.input_mode = false;
                    self.subtask_mode = false;
                    self.edit_mode = false;
                    TodoAction::Stay
                },
                _ => {
                    edit_key(&mut self.input_buffer, &mut self.cursor_pos, key);
                    TodoAction::Stay
                },
            }
        }
    }

    fn do_tag_key(&mut self, key: Key)
        requires
            todo_ui_wf(old(self)@),
            old(self)@.flag_mode,
            !crate::tree_ui::tag_mode_passes(key),
        ensures
            final(self)@ == (match crate::tree_ui::digit_tag(key) {
                Some(d) => todo_tag_spec(old(self)@, visible_filtered(old(self)@.items, old(self)@.search), d),
                None => if key == Key::Char('t') || key == Key::Esc {
                    TodoUiView { flag_mode: false, ..old(self)@ }
                } else {
                    old(self)@
                },
            }),
            todo_ui_wf(final(self)@),
    {
        let ghost v = self@;
        let digit: Option<usize> = match key {
            Key::Char(c) => if '1' <= c && c <= '5' {
                Some((c as u32 - 49) as usize)
            } else {
                None
            },
            _ => None,
        };
        match digit {
            Some(d) => {
                let vis = compute_visible(self.items.as_slice(), self.search_buffer.as_str());
                let i = if self.selected < vis.len() {
                    vis[self.selected]
                } else {
                    0
                };
                if i < self.items.len() && !self.items[i].is_header && !self.items[i].is_code_todo {
                    proof {
                        assert(v.items[i as int] == self.items@[i as int]@);
                    }
                    let bit = tag_bit_exec(d);
                    self.items[i].flags = self.items[i].flags ^ bit;
                    proof {
                        let t = TodoView { flags: v.items[i as int].flags ^ tag_bit(d as int), ..v.items[i as int] };
                        assert(self@.items =~= v.items.update(i as int, t));
                        lemma_depths_update(v.items, i as int, t);
                    }
                }
            },
            None => {
                if key == Key::Char('t') || key == Key::Esc {
                    self.flag_mode = false;
                }
            },
        }
    }

    /// Handle a key press; `ctrl_c` tells that it came with Control and is `c`.
    #[verifier::rlimit(60)]
    pub fn handle_key(&mut self, key: Key, ctrl_c: bool) -> (r: TodoAction)
        requires
            todo_ui_wf(old(self)@),
            prompt_key_ok(old(self)@, key),
            encode_utf8(old(self)@.search).len() + 4 <= usize::MAX,
            encode_utf8(old(self)@.input).len() + 4 <= usize::MAX,
        ensures
            (final(self)@, todo_outcome(r)) == todo_key_spec(old(self)@, key, ctrl_c),
            todo_ui_wf(final(self)@),
    {
        if ctrl_c {
            return TodoAction::Quit;
        }
        if self.show_help {
            self.show_help = false;
            return TodoAction::Stay;
        }
        if self.confirm_delete {
            if key == Key::Char('y') || key == Key::Enter {
                self.do_confirm_delete();
            } else {
                self.confirm_delete = false;
            }
            return TodoAction::Stay;
        }
        let passes = key == Key::Char('/') || key == Key::Char('j') || key == Key::Down || key == Key::Char('k')
            || key == Key::Up || key == Key::Char('h') || key == Key::Left || key == Key::Char('l') || key
            == Key::Right;
        if self.flag_mode && !passes {
            self.do_tag_key(key);
            return TodoAction::Stay;
        }
        if self.flag_mode && key == Key::Char('/') {
            self.flag_mode = false;
        }
        self.key_rest(key)
    }

    #[verifier::rlimit(60)]
    fn key_rest(&mut self, key: Key) -> (r: TodoAction)
        requires
            todo_ui_wf(old(self)@),
            !old(self)@.search_mode && prompt_open(old(self)@) && crate::input::edits_at_cursor(key, old(self)@.cursor)
                ==> is_char_boundary(encode_utf8(old(self)@.input), old(self)@.cursor as int),
            encode_utf8(old(self)@.search).len() + 4 <= usize::MAX,
            encode_utf8(old(self)@.input).len() + 4 <= usize::MAX,
        ensures
            (final(self)@, todo_outcome(r)) == todo_key_rest(old(self)@, key),
            todo_ui_wf(final(self)@),
    {
        if self.search_mode {
            search_key(&mut self.search_mode, &mut self.search_buffer, &mut self.cursor_pos, key);
            self.selected = 0;
            return TodoAction::Stay;
        }
        if self.input_mode || self.subtask_mode || self.edit_mode || self.category_mode {
            return self.do_prompt_key(key);
        }
        let cmd = self.vim.handle_key(key);
        match cmd {
            Some(c) => {
                if VimCommandMode::is_quit(c.as_str()) {
                    return TodoAction::Quit;
                }
                return TodoAction::Stay;
            },
            None => {},
        }
        if self.vim.active {
            return TodoAction::Stay;
        }
        let vis = compute_visible(self.items.as_slice(), self.search_buffer.as_str());
        proof {
            lemma_visible_filtered_below(self@.items, self@.search);
        }
        if self.normal_key(vis.as_slice(), key) {
            TodoAction::Quit
        } else {
            TodoAction::Stay
        }
    }
}

// ---------------------------------------------------------------------------
// Mouse, refresh and categories
// ---------------------------------------------------------------------------

/// Rows that agree in everything but their collapse marks and header tags.
pub open spec fn same_rows(a: Seq<TodoView>, b: Seq<TodoView>) -> bool {
    &&& a.len() == b.len()
    &&& forall|i: int|
        0 <= i < a.len() ==> #[trigger] b[i] == TodoView {
            collapsed: b[i].collapsed,
            flags: if a[i].is_header {
                b[i].flags
            } else {
                a[i].flags
            },
            ..a[i]
        }
}

proof fn lemma_walk_frame(a: Seq<TodoView>, b: Seq<TodoView>, j: int, needed: u8)
    requires
        same_rows(a, b),
        j <= a.len(),
    ensures
        crate::todo_list::walk_marks(a, j, needed) == crate::todo_list::walk_marks(b, j, needed),
    decreases j,
{
    if j > 0 {
        let k = j - 1;
        assert(b[k].is_header == a[k].is_header && b[k].depth == a[k].depth);
        lemma_header_before_frame(a, b, k);
        lemma_walk_frame(a, b, k, needed);
        lemma_walk_frame(a, b, k, a[k].depth);
    }
}

proof fn lemma_header_before_frame(a: Seq<TodoView>, b: Seq<TodoView>, k: int)
    requires
        same_rows(a, b),
        k <= a.len(),
    ensures
        header_before(a, k) == header_before(b, k),
    decreases k,
{
    if k > 0 {
        assert(b[k - 1].is_header == a[k - 1].is_header);
        lemma_header_before_frame(a, b, k - 1);
    }
}

proof fn lemma_kept_frame_todo(a: Seq<TodoView>, b: Seq<TodoView>, tq: Seq<char>, ts: Seq<u8>, x: int)
    requires
        same_rows(a, b),
        0 <= x < a.len(),
        forall|i: int| 0 <= i < a.len() ==> (#[trigger] a[i]).flags == b[i].flags,
    ensures
        kept_by_filter(a, tq, ts, x) == kept_by_filter(b, tq, ts, x),
{
    assert(a[x].text == b[x].text && a[x].flags == b[x].flags);
    assert(crate::todo_list::matches_filter(a[x], tq, ts) == crate::todo_list::matches_filter(b[x], tq, ts));
    assert forall|i: int| 0 <= i < a.len() implies crate::todo_list::matches_filter(a[i], tq, ts)
        == crate::todo_list::matches_filter(b[i], tq, ts) && a[i].depth == b[i].depth by {
        assert(a[i].text == b[i].text && a[i].flags == b[i].flags && a[i].depth == b[i].depth);
    }
    if exists|i: int| 0 <= i < a.len() && crate::todo_list::matches_filter(a[i], tq, ts) && #[trigger] crate::todo_list::walk_marks(a, i, a[i].depth).contains(x) {
        let i = choose|i: int| 0 <= i < a.len() && crate::todo_list::matches_filter(a[i], tq, ts) && #[trigger] crate::todo_list::walk_marks(a, i, a[i].depth).contains(x);
        lemma_walk_frame(a, b, i, a[i].depth);
        assert(crate::todo_list::walk_marks(b, i, b[i].depth).contains(x));
    }
    if exists|i: int| 0 <= i < b.len() && crate::todo_list::matches_filter(b[i], tq, ts) && #[trigger] crate::todo_list::walk_marks(b, i, b[i].depth).contains(x) {
        let i = choose|i: int| 0 <= i < b.len() && crate::todo_list::matches_filter(b[i], tq, ts) && #[trigger] crate::todo_list::walk_marks(b, i, b[i].depth).contains(x);
        lemma_walk_frame(a, b, i, a[i].depth);
        assert(crate::todo_list::walk_marks(a, i, a[i].depth).contains(x));
    }
}

proof fn lemma_next_header_frame(a: Seq<TodoView>, b: Seq<TodoView>, j: int)
    requires
        same_rows(a, b),
        0 <= j,
    ensures
        next_header(a, j) == next_header(b, j),
    decreases a.len() - j,
{
    if j < a.len() {
        assert(b[j].is_header == a[j].is_header);
        if !a[j].is_header {
            lemma_next_header_frame(a, b, j + 1);
        }
    }
}

proof fn lemma_section_flags_frame(a: Seq<TodoView>, b: Seq<TodoView>, from: int, k: int)
    requires
        same_rows(a, b),
        0 <= from,
        k <= a.len(),
        forall|m: int| from <= m < k ==> !(#[trigger] a[m]).is_header,
    ensures
        section_flags(a, from, k) == section_flags(b, from, k),
    decreases k - from,
{
    if k > from {
        assert(b[k - 1].flags == a[k - 1].flags);
        lemma_section_flags_frame(a, b, from, k - 1);
    }
}

proof fn lemma_next_header_no_headers(s: Seq<TodoView>, j: int)
    requires
        0 <= j,
    ensures
        forall|m: int| j <= m < next_header(s, j) ==> !(#[trigger] s[m]).is_header,
        j <= s.len() ==> next_header(s, j) <= s.len(),
    decreases s.len() - j,
{
    if j < s.len() && !s[j].is_header {
        lemma_next_header_no_headers(s, j + 1);
    }
}

proof fn lemma_derived_frame_todo(a: Seq<TodoView>, b: Seq<TodoView>, i: int)
    requires
        same_rows(a, b),
        0 <= i < a.len(),
        forall|m: int| 0 <= m < a.len() ==> (#[trigger] a[m]).has_subtasks == b[m].has_subtasks && a[m].state == b[m].state,
    ensures
        derived_at(a, i) == derived_at(b, i),
        subtask_counts(a, i) == subtask_counts(b, i),
{
    assert forall|k: int| i < k < a.len() implies a[k].depth == #[trigger] b[k].depth by {
        assert(b[k].depth == a[k].depth);
    }
    assert(a[i].depth == b[i].depth);
    crate::todo::lemma_scope_frame(a, b, i, i + 1);
    crate::todo::lemma_scope_bounds(a, i, i + 1);
    assert forall|m: int| i < m < a.len() implies a[m].depth == #[trigger] b[m].depth && a[m].state == b[m].state by {
        assert(b[m].depth == a[m].depth);
    }
    crate::todo::lemma_counts_frame(a, b, i, crate::todo::scope_end(a, i, i + 1));
}

/// Before each draw: every todo with subtasks takes the state its subtasks
/// sum up to, every header the union of its section's tags; and when the
/// filter has just changed to an active one, every header and parent the
/// filter keeps is expanded.
pub open spec fn todo_refreshed(old: TodoUiView, new: TodoUiView) -> bool {
    let s = old.items;
    let t = new.items;
    let f = filter_flat(old.search);
    let sets = filter_sets(old.search);
    let expand = (f.0.len() > 0 || f.1 != 0) && f != old.prev_filter;
    &&& t.len() == s.len()
    &&& forall|i: int|
        0 <= i < t.len() ==> {
            let a = #[trigger] s[i];
            let b = t[i];
            &&& b.text == a.text && b.source == a.source && b.project == a.project && b.is_header == a.is_header
                && b.depth == a.depth && b.is_code_todo == a.is_code_todo
            &&& !a.is_header ==> derived_at(t, i) && b.flags == a.flags
            &&& !a.is_header && subtask_counts(t, i).0 == 0 ==> b.state == a.state
            &&& a.is_header ==> b.state == a.state && b.has_subtasks == a.has_subtasks && b.flags == section_flags(t, i + 1, next_header(t, i + 1))
            &&& b.collapsed == (a.collapsed && !(expand && (b.is_header || b.has_subtasks) && kept_by_filter(t, sets.0, sets.1, i)))
        }
    &&& new.prev_filter == f
    &&& new == TodoUiView { items: t, prev_filter: new.prev_filter, ..old }
}

/// Expand every header and parent that the filter keeps.
fn expand_kept(items: &mut Vec<TodoItem>, search: &str)
    ensures
        todo_views(final(items)@).len() == old(items)@.len(),
        forall|i: int|
            0 <= i < old(items)@.len() ==> #[trigger] todo_views(final(items)@)[i] == (TodoView {
                collapsed: old(items)@[i].collapsed && !((old(items)@[i].is_header || old(items)@[i].has_subtasks)
                    && kept_by_filter(todo_views(old(items)@), filter_sets(search@).0, filter_sets(search@).1, i)),
                ..old(items)@[i]@
            }),
{
    let (text_q, tag_sets) = crate::tags::parse_filter_sets(search);
    let keep = compute_filter_keep(items.as_slice(), text_q.as_str(), tag_sets.as_slice());
    let ghost s = todo_views(old(items)@);
    let n = items.len();
    let mut i: usize = 0;
    while i < n
        invariant
            n == items@.len(),
            n == old(items)@.len(),
            s == todo_views(old(items)@),
            keep@.len() == n,
            i <= n,
            (text_q@, tag_sets@) == filter_sets(search@),
            forall|x: int| 0 <= x < n ==> #[trigger] keep@[x] == kept_by_filter(s, text_q@, tag_sets@, x),
            forall|x: int| i <= x < n ==> #[trigger] items@[x] == old(items)@[x],
            forall|x: int|
                0 <= x < i ==> #[trigger] todo_views(items@)[x] == (TodoView {
                    collapsed: old(items)@[x].collapsed && !((old(items)@[x].is_header || old(items)@[x].has_subtasks)
                        && kept_by_filter(s, text_q@, tag_sets@, x)),
                    ..old(items)@[x]@
                }),
        decreases n - i,
    {
        let ghost before = items@;
        if keep[i] && (items[i].is_header || items[i].has_subtasks) {
            items[i].collapsed = false;
        }
        proof {
            assert forall|x: int| 0 <= x < n && x != i implies #[trigger] items@[x] == before[x] by {}
            assert forall|x: int| 0 <= x < i implies #[trigger] todo_views(items@)[x] == todo_views(before)[x] by {}
        }
        i = i + 1;
    }
}

proof fn lemma_refresh_rows(s: Seq<TodoView>, a: Seq<TodoView>, b: Seq<TodoView>, c: Seq<TodoView>, expand: bool, tq: Seq<char>, ts: Seq<u8>)
    requires
        a.len() == s.len(),
        b.len() == s.len(),
        c.len() == s.len(),
        forall|i: int| 0 <= i < s.len() ==> same_but_status(#[trigger] s[i], a[i]) && (s[i].is_header ==> a[i] == s[i])
            && (!s[i].is_header ==> derived_at(a, i)) && (!s[i].is_header && subtask_counts(a, i).0 == 0 ==> a[i].state == s[i].state),
        forall|i: int| 0 <= i < s.len() && !a[i].is_header ==> #[trigger] b[i] == a[i],
        forall|i: int|
            0 <= i < s.len() && a[i].is_header ==> {
                &&& #[trigger] b[i] == (TodoView { flags: b[i].flags, ..a[i] })
                &&& b[i].flags == section_flags(a, i + 1, next_header(a, i + 1))
            },
        expand ==> forall|i: int| 0 <= i < b.len() ==> #[trigger] c[i] == (TodoView {
            collapsed: b[i].collapsed && !((b[i].is_header || b[i].has_subtasks) && kept_by_filter(b, tq, ts, i)),
            ..b[i]
        }),
        !expand ==> c == b,
    ensures
        forall|i: int|
            0 <= i < c.len() ==> {
                let x = #[trigger] s[i];
                let y = c[i];
                &&& y.text == x.text && y.source == x.source && y.project == x.project && y.is_header == x.is_header
                    && y.depth == x.depth && y.is_code_todo == x.is_code_todo
                &&& !x.is_header ==> derived_at(c, i) && y.flags == x.flags
                &&& !x.is_header && subtask_counts(c, i).0 == 0 ==> y.state == x.state
                &&& x.is_header ==> y.state == x.state && y.has_subtasks == x.has_subtasks && y.flags == section_flags(c, i + 1, next_header(c, i + 1))
                &&& y.collapsed == (x.collapsed && !(expand && (y.is_header || y.has_subtasks) && kept_by_filter(c, tq, ts, i)))
            },
{
    assert forall|i: int| 0 <= i < s.len() implies #[trigger] b[i] == (TodoView { flags: if a[i].is_header { b[i].flags } else { a[i].flags }, ..a[i] }) by {
        if a[i].is_header {
            assert(b[i] == (TodoView { flags: b[i].flags, ..a[i] }));
        } else {
            assert(b[i] == a[i]);
        }
    }
    assert(same_rows(a, b));
    assert forall|i: int| 0 <= i < b.len() implies #[trigger] c[i] == (TodoView { collapsed: c[i].collapsed, flags: if b[i].is_header { c[i].flags } else { b[i].flags }, ..b[i] }) by {
        if expand {
            assert(c[i] == (TodoView {
                collapsed: b[i].collapsed && !((b[i].is_header || b[i].has_subtasks) && kept_by_filter(b, tq, ts, i)),
                ..b[i]
            }));
        }
    }
    assert(same_rows(b, c));
    assert forall|i: int| 0 <= i < b.len() implies (#[trigger] b[i]).flags == c[i].flags by {
        assert(c[i] == (TodoView { collapsed: c[i].collapsed, flags: if b[i].is_header { c[i].flags } else { b[i].flags }, ..b[i] }));
    }
    assert forall|i: int| 0 <= i < a.len() implies #[trigger] c[i] == (TodoView { collapsed: c[i].collapsed, flags: if a[i].is_header { c[i].flags } else { a[i].flags }, ..a[i] }) by {
        assert(b[i] == (TodoView { flags: if a[i].is_header { b[i].flags } else { a[i].flags }, ..a[i] }));
        assert(c[i] == (TodoView { collapsed: c[i].collapsed, flags: if b[i].is_header { c[i].flags } else { b[i].flags }, ..b[i] }));
    }
    assert(same_rows(a, c));
    assert forall|m: int| 0 <= m < a.len() implies (#[trigger] a[m]).has_subtasks == c[m].has_subtasks && a[m].state == c[m].state by {
        assert(c[m] == (TodoView { collapsed: c[m].collapsed, flags: if a[m].is_header { c[m].flags } else { a[m].flags }, ..a[m] }));
    }
    assert forall|i: int| 0 <= i < c.len() implies {
        let x = #[trigger] s[i];
        let y = c[i];
        &&& y.text == x.text && y.source == x.source && y.project == x.project && y.is_header == x.is_header
            && y.depth == x.depth && y.is_code_todo == x.is_code_todo
        &&& !x.is_header ==> derived_at(c, i) && y.flags == x.flags
        &&& !x.is_header && subtask_counts(c, i).0 == 0 ==> y.state == x.state
        &&& x.is_header ==> y.state == x.state && y.has_subtasks == x.has_subtasks && y.flags == section_flags(c, i + 1, next_header(c, i + 1))
        &&& y.collapsed == (x.collapsed && !(expand && (y.is_header || y.has_subtasks) && kept_by_filter(c, tq, ts, i)))
    } by {
        assert(same_but_status(s[i], a[i]));
        assert(c[i] == (TodoView { collapsed: c[i].collapsed, flags: if a[i].is_header { c[i].flags } else { a[i].flags }, ..a[i] }));
        assert(b[i] == (TodoView { flags: if a[i].is_header { b[i].flags } else { a[i].flags }, ..a[i] }));
        lemma_derived_frame_todo(a, c, i);
        if s[i].is_header {
            assert(a[i] == s[i]);
            lemma_next_header_frame(a, c, i + 1);
            lemma_next_header_no_headers(a, i + 1);
            lemma_section_flags_frame(a, c, i + 1, next_header(a, i + 1));
        }
        lemma_kept_frame_todo(b, c, tq, ts, i);
        if expand {
            assert(c[i] == (TodoView {
                collapsed: b[i].collapsed && !((b[i].is_header || b[i].has_subtasks) && kept_by_filter(b, tq, ts, i)),
                ..b[i]
            }));
        }
    }
}

/// Derive parents' states and headers' tags, then (with `expand`) expand
/// every header and parent the filter `search` keeps.
fn refresh_rows(items: &mut Vec<TodoItem>, search: &str, expand: bool)
    requires
        forall|i: int| 0 <= i < old(items)@.len() ==> (#[trigger] old(items)@[i]).depth <= 2,
    ensures
        ({
            let s = todo_views(old(items)@);
            let c = todo_views(final(items)@);
            let sets = filter_sets(search@);
            &&& c.len() == s.len()
            &&& forall|i: int|
                0 <= i < c.len() ==> {
                    let x = #[trigger] s[i];
                    let y = c[i];
                    &&& y.text == x.text && y.source == x.source && y.project == x.project && y.is_header == x.is_header
                        && y.depth == x.depth && y.is_code_todo == x.is_code_todo
                    &&& !x.is_header ==> derived_at(c, i) && y.flags == x.flags
                    &&& !x.is_header && subtask_counts(c, i).0 == 0 ==> y.state == x.state
                    &&& x.is_header ==> y.state == x.state && y.has_subtasks == x.has_subtasks && y.flags == section_flags(c, i + 1, next_header(c, i + 1))
                    &&& y.collapsed == (x.collapsed && !(expand && (y.is_header || y.has_subtasks) && kept_by_filter(c, sets.0, sets.1, i)))
                }
        }),
{
    let ghost s = todo_views(items@);
    proof {
        assert forall|i: int| 0 <= i < s.len() implies #[trigger] s[i].depth < 255 by {
            assert(s[i] == items@[i]@);
        }
    }
    derive_parent_states(items);
    let ghost a = todo_views(items@);
    derive_header_flags(items);
    let ghost b = todo_views(items@);
    if expand {
        expand_kept(items, search);
    }
    proof {
        let c = todo_views(items@);
        let sets = filter_sets(search@);
        assert forall|i: int| 0 <= i < s.len() implies same_but_status(#[trigger] s[i], a[i]) && (s[i].is_header ==> a[i] == s[i])
            && (!s[i].is_header ==> derived_at(a, i)) && (!s[i].is_header && subtask_counts(a, i).0 == 0 ==> a[i].state == s[i].state) by {
            assert(s[i] == old(items)@[i]@);
        }
        lemma_refresh_rows(s, a, b, c, expand, sets.0, sets.1);
    }
}

impl TodoUi {
    /// Bring the todos up to date before drawing.
    pub fn refresh(&mut self)
        requires
            todo_ui_wf(old(self)@),
        ensures
            todo_refreshed(old(self)@, final(self)@),
            todo_ui_wf(final(self)@),
    {
        let ghost v = self@;
        let (text, tags) = parse_filter(self.search_buffer.as_str());
        let active = !text.as_str().is_empty() || tags != 0;
        let changed = !crate::tree::eq_chars(chars_of(text.as_str()).as_slice(), chars_of(self.prev_filter_text.as_str()).as_slice())
            || tags != self.prev_filter_tags;
        proof {
            assert forall|i: int| 0 <= i < self.items@.len() implies (#[trigger] self.items@[i]).depth <= 2 by {
                assert(v.items[i] == self.items@[i]@);
            }
        }
        refresh_rows(&mut self.items, self.search_buffer.as_str(), active && changed);
        self.prev_filter_text = text;
        self.prev_filter_tags = tags;
        proof {
            assert(self@.items[0].is_header == v.items[0].is_header);
            assert forall|i: int| 0 <= i < self@.items.len() implies (#[trigger] self@.items[i]).depth <= 2 by {
                assert(self@.items[i].depth == v.items[i].depth);
            }
        }
    }
}

/// The row under the mouse in the list drawn at `list` (rows `vm`, line
/// counts `rows`), scrolled by the list offset.
pub open spec fn row_under(v: TodoUiView, m: Mouse, list: Area, vm: Seq<usize>, rows: Seq<u16>) -> Option<usize> {
    row_at(
        m.row as int,
        list.y as int,
        if list.y + list.height > u16::MAX {
            u16::MAX - list.y
        } else {
            list.height as int
        },
        v.offset as int,
        vm,
        rows,
    )
}

/// A click or key on the filter strip: the dot under it toggles its tag in
/// the filter, elsewhere the filter starts being typed in; the cursor goes
/// to the end of the filter.
pub open spec fn strip_click_spec(v: TodoUiView, m: Mouse, strip: Area) -> TodoUiView {
    match dot_at(m.column as int, strip.x as int) {
        Some(d) => {
            let t = toggled_filter(v.search, tag_name(d as int));
            TodoUiView { search: t, cursor: encode_utf8(t).len() as usize, ..v }
        },
        None => TodoUiView { search_mode: true, cursor: encode_utf8(v.search).len() as usize, ..v },
    }
}

/// No drag in progress.
pub open spec fn drag_cleared(v: TodoUiView) -> TodoUiView {
    TodoUiView { drag_candidate: None, drag_active: false, drag_start: None, drag_target: None, ..v }
}

/// Releasing the left button: after a real drag between compatible rows the
/// dragged todo (with its subtasks) moves to the target and stays selected;
/// after a plain click a header or parent is collapsed or expanded.  The
/// drag state is cleared.
pub open spec fn release_spec(v: TodoUiView) -> TodoUiView {
    let s = v.items;
    let v1 = if v.drag_active {
        match (v.drag_start, v.drag_target) {
            (Some(st), Some(tg)) => if st != tg && can_drag_spec(s, st as int, tg as int) {
                let t = dragged(s, st as int, tg as int);
                let ns = dragged_start(s, st as int, tg as int);
                TodoUiView {
                    items: t,
                    selected: match index_in(visible_indices(t), ns as usize) {
                        Some(p) => p,
                        None => v.selected,
                    },
                    ..v
                }
            } else {
                v
            },
            _ => v,
        }
    } else {
        match v.drag_candidate {
            Some(ri) => if s[ri as int].is_header || s[ri as int].has_subtasks {
                TodoUiView { items: with_collapsed(s, ri as int, !s[ri as int].collapsed), ..v }
            } else {
                v
            },
            None => v,
        }
    };
    drag_cleared(v1)
}

/// A left press on the list: the row under it is selected; a tag dot of a
/// todo toggles that tag, anywhere else the row becomes the drag candidate.
pub open spec fn press_spec(v: TodoUiView, m: Mouse, list: Area, vm: Seq<usize>, rows: Seq<u16>) -> TodoUiView {
    match row_under(v, m, list, vm, rows) {
        Some(ri) => {
            let v1 = match index_in(vm, ri) {
                Some(p) => TodoUiView { selected: p, ..v },
                None => v,
            };
            press_row_spec(v1, ri, dot_at(m.column as int, list.x as int))
        },
        None => v,
    }
}

/// The mouse moved: with no drag pending, remember the tag dot of a todo
/// under it.
pub open spec fn moved_spec(v: TodoUiView, m: Mouse, list: Area, vm: Seq<usize>, rows: Seq<u16>) -> TodoUiView {
    let s = v.items;
    if v.drag_candidate is None {
        TodoUiView {
            hover_flag: match row_under(v, m, list, vm, rows) {
                Some(idx) => if s[idx as int].is_header || s[idx as int].is_code_todo {
                    None
                } else {
                    match dot_at(m.column as int, list.x as int) {
                        Some(d) => Some((idx, d)),
                        None => None,
                    }
                },
                None => None,
            },
            ..v
        }
    } else {
        v
    }
}

/// Dragging with the left button: a todo candidate becomes the dragged
/// row and the row under the mouse the drop target.
pub open spec fn drag_spec(v: TodoUiView, m: Mouse, list: Area, vm: Seq<usize>, rows: Seq<u16>) -> TodoUiView {
    let s = v.items;
    match v.drag_candidate {
        Some(st) => if !s[st as int].is_header && !s[st as int].is_code_todo {
            TodoUiView {
                drag_active: true,
                drag_start: Some(st),
                drag_target: match row_under(v, m, list, vm, rows) {
                    Some(r) => Some(r),
                    None => v.drag_target,
                },
                ..v
            }
        } else {
            v
        },
        None => v,
    }
}

/// A mouse event in the todo view.  The wheel moves the selection.  A left
/// press on the filter strip works the filter; on a row it selects the row
/// and either toggles the tag of the dot under it (todos only) or makes the
/// row a drag candidate.  Moving the mouse (no drag pending) tracks the tag
/// dot under it; dragging a todo tracks the drop target; releasing ends it.
pub open spec fn todo_mouse_spec(v: TodoUiView, m: Mouse, strip: Area, list: Area, vm: Seq<usize>, rows: Seq<u16>) -> TodoUiView {
    let s = v.items;
    match m.kind {
        MouseKind::ScrollDown => if v.selected + 1 < vm.len() {
            TodoUiView { selected: (v.selected + 1) as usize, ..v }
        } else {
            v
        },
        MouseKind::ScrollUp => if v.selected > 0 {
            TodoUiView { selected: (v.selected - 1) as usize, ..v }
        } else {
            v
        },
        MouseKind::LeftDown => if m.row == strip.y {
            strip_click_spec(v, m, strip)
        } else {
            press_spec(v, m, list, vm, rows)
        },
        MouseKind::Moved => moved_spec(v, m, list, vm, rows),
        MouseKind::LeftDrag => drag_spec(v, m, list, vm, rows),
        MouseKind::LeftUp => release_spec(v),
        _ => v,
    }
}

proof fn lemma_row_from_in(line: int, k: int, vm: Seq<usize>, rows: Seq<u16>, n: int)
    requires
        forall|j: int| 0 <= j < vm.len() ==> (#[trigger] vm[j] as int) < n,
    ensures
        crate::todo_list::row_from(line, k, vm, rows) matches Some(r) ==> (r as int) < n,
    decreases vm.len() - k,
{
    if 0 <= k < vm.len() {
        let r = if k < rows.len() {
            rows[k] as int
        } else {
            1
        };
        if line >= r {
            lemma_row_from_in(line - r, k + 1, vm, rows, n);
        }
    }
}

/// The drag state points at rows of the list.
pub open spec fn drag_ok(v: TodoUiView) -> bool {
    &&& v.drag_candidate matches Some(i) ==> (i as int) < v.items.len()
}

proof fn lemma_drag_keeps_shape(s: Seq<TodoView>, st: int, tg: int)
    requires
        can_drag_spec(s, st, tg),
        depth_ok(s),
        s.len() > 0,
        s[0].is_header,
    ensures
        depth_ok(dragged(s, st, tg)),
        dragged(s, st, tg).len() == s.len(),
        dragged(s, st, tg)[0].is_header,
{
    crate::todo_list::lemma_block_end_bounds(s, st, st + 1);
    crate::todo_list::lemma_block_end_bounds(s, tg, tg + 1);
    let se = crate::todo_list::block_end_spec(s, st);
    let te = crate::todo_list::block_end_spec(s, tg);
    assert(st > 0 && tg > 0);
    if st < tg {
        crate::todo_list::lemma_drag_blocks(s, st, tg);
        lemma_depth_ok_sub(s, 0, st);
        lemma_depth_ok_sub(s, se, te);
        lemma_depth_ok_sub(s, st, se);
        lemma_depth_ok_sub(s, te, s.len() as int);
        lemma_depth_ok_concat(s.subrange(0, st), s.subrange(se, te));
        lemma_depth_ok_concat(s.subrange(0, st) + s.subrange(se, te), s.subrange(st, se));
        lemma_depth_ok_concat(s.subrange(0, st) + s.subrange(se, te) + s.subrange(st, se), s.subrange(te, s.len() as int));
        assert(dragged(s, st, tg)[0] == s[0]);
    } else if tg < st {
        crate::todo_list::lemma_drag_blocks(s, st, tg);
        lemma_depth_ok_sub(s, 0, tg);
        lemma_depth_ok_sub(s, st, se);
        lemma_depth_ok_sub(s, tg, st);
        lemma_depth_ok_sub(s, se, s.len() as int);
        lemma_depth_ok_concat(s.subrange(0, tg), s.subrange(st, se));
        lemma_depth_ok_concat(s.subrange(0, tg) + s.subrange(st, se), s.subrange(tg, st));
        lemma_depth_ok_concat(s.subrange(0, tg) + s.subrange(st, se) + s.subrange(tg, st), s.subrange(se, s.len() as int));
        assert(dragged(s, st, tg)[0] == s[0]);
    }
}

impl TodoUi {
    /// A todo list view: first row selected, nothing filtered, no prompt.
    pub fn new(items: Vec<TodoItem>, global: bool) -> (r: Self)
        ensures
            r@.items == todo_views(items@),
            r@.global == global,
            r@.selected == 0 && r@.offset == 0,
            !r@.vim_active && r@.vim_buffer.len() == 0,
            !r@.input_mode && !r@.subtask_mode && !r@.edit_mode && !r@.category_mode && !r@.confirm_delete,
            !r@.flag_mode && !r@.search_mode && !r@.focus_active && !r@.show_help,
            r@.input.len() == 0 && r@.search.len() == 0 && r@.cursor == 0 && r@.edit_idx == 0,
            r@.pre_focus.len() == 0 && r@.category_error is None && r@.hover_flag is None,
            drag_cleared(r@) == r@,
            r@.prev_filter == (Seq::<char>::empty(), 0u8),
    {
        TodoUi {
            items,
            global,
            selected: 0,
            offset: 0,
            vim: VimCommandMode::new(),
            input_mode: false,
            subtask_mode: false,
            edit_mode: false,
            edit_idx: 0,
            input_buffer: String::new(),
            flag_mode: false,
            search_mode: false,
            search_buffer: String::new(),
            cursor_pos: 0,
            confirm_delete: false,
            focus_active: false,
            pre_focus_collapsed: Vec::new(),
            show_help: false,
            category_mode: false,
            category_error: None,
            drag_candidate: None,
            drag_active: false,
            drag_start: None,
            drag_target: None,
            hover_flag: None,
            prev_filter_text: String::new(),
            prev_filter_tags: 0,
        }
    }

    #[verifier::rlimit(60)]
    fn todo_strip_click(&mut self, m: Mouse, strip: Area)
        requires
            todo_ui_wf(old(self)@),
            strip.x + 9 <= u16::MAX,
        ensures
            final(self)@ == strip_click_spec(old(self)@, m, strip),
            todo_ui_wf(final(self)@),
    {
        match mouse_x_to_filter_dot(m.column, strip.x) {
            Some(d) => {
                let name = tag_name_string(d as usize);
                toggle_filter_tag(&mut self.search_buffer, name.as_str());
                self.cursor_pos = self.search_buffer.as_str().as_bytes().len();
            },
            None => {
                self.search_mode = true;
                self.cursor_pos = self.search_buffer.as_str().as_bytes().len();
            },
        }
        proof {
            crate::input::lemma_boundary_prefix(self@.search, encode_utf8(self@.search).len() as int);
            assert(self@.search.take(self@.search.len() as int) =~= self@.search);
            assert(crate::input::prefix_bytes(self@.search, self@.search.len() as int) == encode_utf8(self@.search).len());
        }
    }

    #[verifier::rlimit(40)]
    fn todo_release(&mut self)
        requires
            todo_ui_wf(old(self)@),
            drag_ok(old(self)@),
        ensures
            final(self)@ == release_spec(old(self)@),
            todo_ui_wf(final(self)@),
    {
        let ghost v = self@;
        if self.drag_active {
            match (self.drag_start, self.drag_target) {
                (Some(st), Some(tg)) => {
                    if st != tg && can_drag(self.items.as_slice(), st, tg) {
                        proof {
                            lemma_drag_keeps_shape(v.items, st as int, tg as int);
                        }
                        let ns = perform_drag_move(&mut self.items, st, tg);
                        let nv = get_visible_indices(self.items.as_slice());
                        match position_of(nv.as_slice(), ns) {
                            Some(p) => {
                                self.selected = p;
                            },
                            None => {},
                        }
                    }
                },
                _ => {},
            }
        } else {
            match self.drag_candidate {
                Some(ri) => {
                    proof {
                        assert(v.items[ri as int] == self.items@[ri as int]@);
                    }
                    if self.items[ri].is_header || self.items[ri].has_subtasks {
                        let b = !self.items[ri].collapsed;
                        set_collapsed(&mut self.items, ri, b);
                        proof {
                            assert forall|k: int| 0 <= k < self@.items.len() implies (#[trigger] self@.items[k]).depth <= 2 by {
                                assert(self@.items[k].depth == v.items[k].depth);
                            }
                        }
                    }
                },
                None => {},
            }
        }
        self.drag_candidate = None;
        self.drag_active = false;
        self.drag_start = None;
        self.drag_target = None;
    }

}

/// Pressing on row `ri` after selecting it: a todo's tag dot toggles the
/// tag, anywhere else the row becomes the drag candidate.
pub open spec fn press_row_spec(v: TodoUiView, ri: usize, dot: Option<u8>) -> TodoUiView {
    let it = v.items[ri as int];
    if dot is Some && !it.is_header && !it.is_code_todo {
        TodoUiView { items: v.items.update(ri as int, TodoView { flags: it.flags ^ tag_bit(dot->0 as int), ..it }), ..v }
    } else {
        TodoUiView { drag_candidate: Some(ri), drag_active: false, drag_start: None, drag_target: None, ..v }
    }
}

impl TodoUi {
    fn press_row(&mut self, ri: usize, dot: Option<u8>)
        requires
            todo_ui_wf(old(self)@),
            (ri as int) < old(self)@.items.len(),
            dot matches Some(d) ==> d < 5,
            drag_ok(old(self)@),
        ensures
            final(self)@ == press_row_spec(old(self)@, ri, dot),
            todo_ui_wf(final(self)@),
            drag_ok(final(self)@),
    {
        let ghost v = self@;
        proof {
            assert(v.items[ri as int] == self.items@[ri as int]@);
        }
        if dot.is_some() && !self.items[ri].is_header && !self.items[ri].is_code_todo {
            let d = match dot {
                Some(d) => d,
                None => 0,
            };
            let bit = tag_bit_exec(d as usize);
            self.items[ri].flags = self.items[ri].flags ^ bit;
            proof {
                let t = TodoView { flags: v.items[ri as int].flags ^ tag_bit(d as int), ..v.items[ri as int] };
                assert(self@.items =~= v.items.update(ri as int, t));
                lemma_depths_update(v.items, ri as int, t);
            }
        } else {
            self.drag_candidate = Some(ri);
            self.drag_active = false;
            self.drag_start = None;
            self.drag_target = None;
        }
    }

    fn todo_press(&mut self, m: Mouse, list: Area, vm: &[usize], rows: &[u16])
        requires
            todo_ui_wf(old(self)@),
            list.x + 9 <= u16::MAX,
            drag_ok(old(self)@),
            forall|k: int| 0 <= k < vm@.len() ==> (#[trigger] vm@[k] as int) < old(self)@.items.len(),
        ensures
            final(self)@ == press_spec(old(self)@, m, list, vm@, rows@),
            todo_ui_wf(final(self)@),
            drag_ok(final(self)@),
    {
        let ghost v = self@;
        let r = mouse_y_to_real_idx(m.row, list.y, list.height, self.offset, vm, rows);
        proof {
            lemma_row_from_in((m.row - list.y) as int, self.offset as int, vm@, rows@, v.items.len() as int);
        }
        match r {
            Some(ri) => {
                match position_of(vm, ri) {
                    Some(p) => {
                        self.selected = p;
                    },
                    None => {},
                }
                let dot = mouse_x_to_dot(m.column, list.x);
                self.press_row(ri, dot);
            },
            None => {},
        }
    }
}

impl TodoUi {
    fn todo_moved(&mut self, m: Mouse, list: Area, vm: &[usize], rows: &[u16])
        requires
            todo_ui_wf(old(self)@),
            list.x + 9 <= u16::MAX,
            forall|k: int| 0 <= k < vm@.len() ==> (#[trigger] vm@[k] as int) < old(self)@.items.len(),
        ensures
            final(self)@ == moved_spec(old(self)@, m, list, vm@, rows@),
    {
        let ghost v = self@;
        if self.drag_candidate.is_none() {
            let r = mouse_y_to_real_idx(m.row, list.y, list.height, self.offset, vm, rows);
            proof {
                lemma_row_from_in((m.row - list.y) as int, self.offset as int, vm@, rows@, v.items.len() as int);
            }
            let h = match r {
                Some(idx) => {
                    proof {
                        assert(v.items[idx as int] == self.items@[idx as int]@);
                    }
                    if self.items[idx].is_header || self.items[idx].is_code_todo {
                        None
                    } else {
                        match mouse_x_to_dot(m.column, list.x) {
                            Some(d) => Some((idx, d)),
                            None => None,
                        }
                    }
                },
                None => None,
            };
            self.hover_flag = h;
        }
    }

    fn todo_drag(&mut self, m: Mouse, list: Area, vm: &[usize], rows: &[u16])
        requires
            todo_ui_wf(old(self)@),
            drag_ok(old(self)@),
        ensures
            final(self)@ == drag_spec(old(self)@, m, list, vm@, rows@),
    {
        let ghost v = self@;
        match self.drag_candidate {
            Some(st) => {
                proof {
                    assert(v.items[st as int] == self.items@[st as int]@);
                }
                if !self.items[st].is_header && !self.items[st].is_code_todo {
                    self.drag_active = true;
                    self.drag_start = Some(st);
                    let r = mouse_y_to_real_idx(m.row, list.y, list.height, self.offset, vm, rows);
                    match r {
                        Some(x) => {
                            self.drag_target = Some(x);
                        },
                        None => {},
                    }
                }
            },
            None => {},
        }
    }

    /// Handle a mouse event; `strip` and `list` are where the filter strip
    /// and the list were drawn, `vm` the rows drawn and `rows` how many
    /// lines each took.
    #[verifier::rlimit(60)]
    pub fn handle_mouse(&mut self, m: Mouse, strip: Area, list: Area, vm: &[usize], rows: &[u16])
        requires
            todo_ui_wf(old(self)@),
            drag_ok(old(self)@),
            strip.x + 9 <= u16::MAX,
            list.x + 9 <= u16::MAX,
            forall|k: int| 0 <= k < vm@.len() ==> (#[trigger] vm@[k] as int) < old(self)@.items.len(),
        ensures
            final(self)@ == todo_mouse_spec(old(self)@, m, strip, list, vm@, rows@),
            todo_ui_wf(final(self)@),
            drag_ok(final(self)@),
    {
        let ghost v = self@;
        match m.kind {
            MouseKind::ScrollDown => {
                if self.selected < vm.len() && self.selected + 1 < vm.len() {
                    self.selected = self.selected + 1;
                }
            },
            MouseKind::ScrollUp => {
                if self.selected > 0 {
                    self.selected = self.selected - 1;
                }
            },
            MouseKind::LeftDown => {
                if m.row == strip.y {
                    self.todo_strip_click(m, strip);
                } else {
                    self.todo_press(m, list, vm, rows);
                }
            },
            MouseKind::Moved => {
                self.todo_moved(m, list, vm, rows);
            },
            MouseKind::LeftDrag => {
                self.todo_drag(m, list, vm, rows);
            },
            MouseKind::LeftUp => {
                self.todo_release();
            },
            _ => {},
        }
    }

    /// The category could not be created: one of that name exists.
    pub fn category_exists(&mut self)
        ensures
            final(self)@ == (TodoUiView { category_error: Some(CategoryError::Exists), ..old(self)@ }),
    {
        self.category_error = Some(CategoryError::Exists);
    }

    /// The category `name` was created and the todos reloaded: the prompt
    /// closes and the new category's header is selected.
    pub fn category_created(&mut self, items: Vec<TodoItem>, name: &str)
        requires
            items@.len() > 0,
            items@[0].is_header,
            forall|i: int| 0 <= i < items@.len() ==> (#[trigger] items@[i]).depth <= 2,
            !old(self)@.search_mode,
        ensures
            final(self)@ == (TodoUiView {
                items: todo_views(items@),
                input: Seq::empty(),
                cursor: 0,
                category_mode: false,
                category_error: None,
                selected: match first_header_of(todo_views(items@), name@) {
                    Some(h) => match index_in(visible_indices(todo_views(items@)), h as usize) {
                        Some(p) => p,
                        None => old(self)@.selected,
                    },
                    None => old(self)@.selected,
                },
                drag_candidate: None,
                ..old(self)@
            }),
            todo_ui_wf(final(self)@),
            drag_ok(final(self)@),
    {
        let target = chars_of(name);
        let mut found: Option<usize> = None;
        let mut i: usize = 0;
        let ghost s = todo_views(items@);
        while i < items.len() && found.is_none()
            invariant
                s == todo_views(items@),
                target@ == name@,
                i <= items@.len(),
                found is None ==> first_header_of(s, name@) == first_header_from(s, name@, i as int),
                found matches Some(h) ==> first_header_of(s, name@) == Some(h as int) && h < items@.len(),
            decreases items.len() - i, found.is_none() as int,
        {
            proof {
                assert(s[i as int] == items@[i as int]@);
            }
            if items[i].is_header && crate::tree::eq_chars(chars_of(items[i].project.as_str()).as_slice(), target.as_slice()) {
                found = Some(i);
            } else {
                i = i + 1;
            }
        }
        match found {
            Some(h) => {
                let nv = get_visible_indices(items.as_slice());
                match position_of(nv.as_slice(), h) {
                    Some(p) => {
                        self.selected = p;
                    },
                    None => {},
                }
            },
            None => {},
        }
        self.items = items;
        self.input_buffer = String::new();
        self.cursor_pos = 0;
        self.category_mode = false;
        self.category_error = None;
        self.drag_candidate = None;
    }
}

/// The first header of project `name` at or after row `i`.
pub open spec fn first_header_from(s: Seq<TodoView>, name: Seq<char>, i: int) -> Option<int>
    decreases s.len() - i,
{
    if i < 0 || i >= s.len() {
        None
    } else if s[i].is_header && s[i].project == name {
        Some(i)
    } else {
        first_header_from(s, name, i + 1)
    }
}

/// The first header of project `name`.
pub open spec fn first_header_of(s: Seq<TodoView>, name: Seq<char>) -> Option<int> {
    first_header_from(s, name, 0)
}

} // verus!
