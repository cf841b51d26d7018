//! The decisions of the interactive note tree: what each key and mouse
//! event does to the nodes, the selection and the modes.  The view runs
//! the loop, draws, and performs the actions handed back (open a file,
//! quit).
use vstd::prelude::*;
use vstd::utf8::{encode_scalar, encode_utf8, is_char_boundary};
use crate::input::{
    cell_in_area, field_ok, in_area, sat_add16, sat_sub16, search_key, search_key_spec, vim_step, Area, FieldView, Key,
    Mouse, MouseKind, VimCommandMode,
};
use crate::tags::{dot_at, filter_flat, mouse_x_to_filter_dot, parse_filter, tag_bit, tag_bit_exec, tag_name, tag_name_string, toggle_filter_tag, toggled_filter, TAG_COUNT};
use crate::text::{chars_of, string_of};
use crate::tree::{
    compute_visible_with_filter, derive_dir_flags, dir_flags_derived, expand_filter_matches, find_top_dir,
    get_visible_nodes, lemma_derived_frame, lemma_kept_frame, node_kept, node_views, parents_before,
    same_but_flags, same_shape_and_tags, top_dir, tree_visible_filtered, visible_nodes_upto, NodeView, TreeNode,
};
use crate::tags::filter_sets;

verus! {

broadcast use vstd::utf8::encode_utf8_valid_utf8;

/// What the view does after an event.
pub enum TreeAction {
    /// Keep going.
    Stay,
    /// Leave the view.
    Quit,
    /// Open this file in the editor, then come back.
    Open(String),
}

/// The state of the interactive tree between events.
pub struct TreeUi {
    pub nodes: Vec<TreeNode>,
    pub selected: usize,
    pub offset: usize,
    pub search_mode: bool,
    pub search_buffer: String,
    pub cursor_pos: usize,
    pub focus_active: bool,
    pub pre_focus_expanded: Vec<(usize, bool)>,
    pub show_help: bool,
    pub flag_mode: bool,
    pub preview_scroll: u16,
    pub vim: VimCommandMode,
    pub prev_filter_text: String,
    pub prev_filter_tags: u8,
}

/// The mathematical content of a `TreeUi`.
pub struct TreeUiView {
    pub nodes: Seq<NodeView>,
    pub selected: usize,
    pub offset: usize,
    pub search_mode: bool,
    pub search: Seq<char>,
    pub cursor: usize,
    pub focus_active: bool,
    pub pre_focus: Seq<(usize, bool)>,
    pub show_help: bool,
    pub flag_mode: bool,
    pub preview_scroll: u16,
    pub vim_active: bool,
    pub vim_buffer: Seq<char>,
    pub prev_filter: (Seq<char>, u8),
}

impl View for TreeUi {
    type V = TreeUiView;

    open spec fn view(&self) -> TreeUiView {
        TreeUiView {
            nodes: node_views(self.nodes@),
            selected: self.selected,
            offset: self.offset,
            search_mode: self.search_mode,
            search: self.search_buffer@,
            cursor: self.cursor_pos,
            focus_active: self.focus_active,
            pre_focus: self.pre_focus_expanded@,
            show_help: self.show_help,
            flag_mode: self.flag_mode,
            preview_scroll: self.preview_scroll,
            vim_active: self.vim.active,
            vim_buffer: self.vim.buffer@,
            prev_filter: (self.prev_filter_text@, self.prev_filter_tags),
        }
    }
}

/// The state can be worked on: parents come before their children, there
/// is at least one node, and the filter cursor sits on a character boundary.
pub open spec fn tree_ui_wf(v: TreeUiView) -> bool {
    &&& parents_before(v.nodes)
    &&& v.nodes.len() > 0
    &&& v.search_mode ==> is_char_boundary(encode_utf8(v.search), v.cursor as int)
}

// ---------------------------------------------------------------------------
// Operations on the nodes
// ---------------------------------------------------------------------------

/// Node `i` with its directory expanded or collapsed.
pub open spec fn with_expanded(s: Seq<NodeView>, i: int, b: bool) -> Seq<NodeView> {
    s.update(i, NodeView { expanded: b, ..s[i] })
}

/// Expand or collapse the node `o` names, if any.
pub open spec fn opt_expanded(s: Seq<NodeView>, o: Option<usize>, b: bool) -> Seq<NodeView> {
    match o {
        Some(i) => with_expanded(s, i as int, b),
        None => s,
    }
}

/// The first position of `x` in `v`.
pub open spec fn index_in(v: Seq<usize>, x: usize) -> Option<usize>
    decreases v.len(),
{
    if v.len() == 0 {
        None
    } else {
        match index_in(v.drop_last(), x) {
            Some(p) => Some(p),
            None => if v.last() == x {
                Some((v.len() - 1) as usize)
            } else {
                None
            },
        }
    }
}

/// The visible nodes, without a filter.
pub open spec fn all_visible(s: Seq<NodeView>) -> Seq<usize> {
    visible_nodes_upto(s, s.len() as int)
}

/// The first position of `x` in `v`.
pub fn position_of(v: &[usize], x: usize) -> (r: Option<usize>)
    ensures
        r == index_in(v@, x),
{
    let mut i: usize = 0;
    while i < v.len()
        invariant
            i <= v@.len(),
            index_in(v@.take(i as int), x) is None,
        decreases v.len() - i,
    {
        proof {
            assert(v@.take(i + 1).drop_last() =~= v@.take(i as int));
        }
        if v[i] == x {
            proof {
                lemma_index_in_prefix(v@, i + 1, x);
            }
            return Some(i);
        }
        i = i + 1;
    }
    proof {
        assert(v@.take(v@.len() as int) =~= v@);
    }
    None
}

proof fn lemma_index_in_prefix(v: Seq<usize>, n: int, x: usize)
    requires
        0 < n <= v.len(),
        index_in(v.take(n), x) is Some,
    ensures
        index_in(v, x) == index_in(v.take(n), x),
    decreases v.len() - n,
{
    if n < v.len() {
        assert(v.take(n + 1).drop_last() =~= v.take(n));
        lemma_index_in_prefix(v, n + 1, x);
    } else {
        assert(v.take(n) =~= v);
    }
}

proof fn lemma_expanded_keeps_parents(s: Seq<NodeView>, i: int, b: bool)
    requires
        parents_before(s),
        0 <= i < s.len(),
    ensures
        parents_before(with_expanded(s, i, b)),
{
    let t = with_expanded(s, i, b);
    assert forall|k: int| 0 <= k < t.len() && (#[trigger] t[k]).parent_idx is Some implies t[k].parent_idx->0 < k by {
        assert(t[k].parent_idx == s[k].parent_idx);
    }
}

/// Expand or collapse one node.
fn set_expanded(nodes: &mut Vec<TreeNode>, i: usize, b: bool)
    requires
        i < old(nodes)@.len(),
    ensures
        node_views(final(nodes)@) == with_expanded(node_views(old(nodes)@), i as int, b),
{
    nodes[i].expanded = b;
    proof {
        assert(node_views(nodes@) =~= with_expanded(node_views(old(nodes)@), i as int, b));
    }
}

/// Every top-level directory's expansion, in node order.
pub open spec fn top_snapshot(s: Seq<NodeView>) -> Seq<(usize, bool)>
    decreases s.len(),
{
    if s.len() == 0 {
        Seq::empty()
    } else {
        let prev = top_snapshot(s.drop_last());
        let i = s.len() - 1;
        if s[i].is_dir && s[i].depth == 0 {
            prev.push((i as usize, s[i].expanded))
        } else {
            prev
        }
    }
}

/// Put back recorded expansions, in order, skipping indices out of range.
pub open spec fn restore_expanded(s: Seq<NodeView>, pre: Seq<(usize, bool)>) -> Seq<NodeView>
    decreases pre.len(),
{
    if pre.len() == 0 {
        s
    } else {
        let t = restore_expanded(s, pre.drop_last());
        let (i, b) = pre.last();
        if (i as int) < t.len() {
            with_expanded(t, i as int, b)
        } else {
            t
        }
    }
}

/// Every top-level directory expanded exactly when `keep(i)` holds.
pub open spec fn tops_expanded(s: Seq<NodeView>, keep: spec_fn(usize) -> bool) -> Seq<NodeView> {
    Seq::new(
        s.len(),
        |i: int|
            if s[i].is_dir && s[i].depth == 0 {
                NodeView { expanded: keep(i as usize), ..s[i] }
            } else {
                s[i]
            },
    )
}

/// Some top-level directory is collapsed.
pub open spec fn any_top_collapsed(s: Seq<NodeView>) -> bool {
    exists|i: int| 0 <= i < s.len() && (#[trigger] s[i]).is_dir && s[i].depth == 0 && !s[i].expanded
}

proof fn lemma_restore_len(s: Seq<NodeView>, pre: Seq<(usize, bool)>)
    requires
        parents_before(s),
    ensures
        restore_expanded(s, pre).len() == s.len(),
        parents_before(restore_expanded(s, pre)),
        forall|k: int|
            0 <= k < s.len() ==> same_but_flags(#[trigger] s[k], NodeView { expanded: s[k].expanded, ..restore_expanded(s, pre)[k] }),
    decreases pre.len(),
{
    if pre.len() > 0 {
        lemma_restore_len(s, pre.drop_last());
        let t = restore_expanded(s, pre.drop_last());
        let (i, b) = pre.last();
        if (i as int) < t.len() {
            lemma_expanded_keeps_parents(t, i as int, b);
        }
    }
}

proof fn lemma_tops_keep_parents(s: Seq<NodeView>, keep: spec_fn(usize) -> bool)
    requires
        parents_before(s),
    ensures
        parents_before(tops_expanded(s, keep)),
{
    let t = tops_expanded(s, keep);
    assert forall|k: int| 0 <= k < t.len() && (#[trigger] t[k]).parent_idx is Some implies t[k].parent_idx->0 < k by {
        assert(t[k].parent_idx == s[k].parent_idx);
    }
}

// ---------------------------------------------------------------------------
// Normal-mode keys
// ---------------------------------------------------------------------------

/// The node under the selection of the filtered list (`0` when the
/// selection is past its end).
pub open spec fn here_at(vis: Seq<usize>, sel: usize) -> usize {
    if (sel as int) < vis.len() {
        vis[sel as int]
    } else {
        0
    }
}

/// Moving the selection from node `here` to node `target` (`fallback` is
/// the new selection when nothing special happens): under focus, crossing
/// into another top-level directory collapses the old one, expands the new
/// one and selects the target in the recomputed list.
pub open spec fn hop(s: Seq<NodeView>, here: usize, target: usize, focus: bool, sel: usize, fallback: usize) -> (Seq<NodeView>, usize) {
    let ot = top_dir(s, here as int);
    let nt = top_dir(s, target as int);
    if focus && ot != nt {
        let t = opt_expanded(opt_expanded(s, ot, false), nt, true);
        (
            t,
            match index_in(all_visible(t), target) {
                Some(p) => p,
                None => sel,
            },
        )
    } else {
        (s, fallback)
    }
}

/// `j` / Down.
pub open spec fn move_down_spec(v: TreeUiView, vis: Seq<usize>) -> TreeUiView {
    if v.selected + 1 < vis.len() {
        let (t, sel) = hop(v.nodes, vis[v.selected as int], vis[v.selected + 1], v.focus_active, v.selected, (v.selected + 1) as usize);
        TreeUiView { nodes: t, selected: sel, ..v }
    } else {
        v
    }
}

/// `k` / Up.
pub open spec fn move_up_spec(v: TreeUiView, vis: Seq<usize>) -> TreeUiView {
    if v.selected > 0 && v.selected - 1 < vis.len() {
        let (t, sel) = hop(v.nodes, here_at(vis, v.selected), vis[v.selected - 1], v.focus_active, v.selected, (v.selected - 1) as usize);
        TreeUiView { nodes: t, selected: sel, ..v }
    } else {
        v
    }
}

/// `l` / Right: expand the selected directory.
pub open spec fn expand_spec(v: TreeUiView, vis: Seq<usize>) -> TreeUiView {
    if (v.selected as int) < vis.len() {
        let i = vis[v.selected as int] as int;
        if v.nodes[i].is_dir && !v.nodes[i].expanded {
            TreeUiView { nodes: with_expanded(v.nodes, i, true), focus_active: false, ..v }
        } else {
            v
        }
    } else {
        v
    }
}

/// `h` / Left: collapse the selected directory, or select its parent.
pub open spec fn collapse_spec(v: TreeUiView, vis: Seq<usize>) -> TreeUiView {
    if (v.selected as int) < vis.len() {
        let i = vis[v.selected as int] as int;
        if v.nodes[i].is_dir && v.nodes[i].expanded {
            TreeUiView { nodes: with_expanded(v.nodes, i, false), focus_active: false, ..v }
        } else {
            match v.nodes[i].parent_idx {
                Some(p) => match index_in(all_visible(v.nodes), p) {
                    Some(pos) => TreeUiView { selected: pos, ..v },
                    None => v,
                },
                None => v,
            }
        }
    } else {
        v
    }
}

/// `f`: focus the top-level directory of the selection, or undo the focus.
pub open spec fn focus_spec(v: TreeUiView, vis: Seq<usize>) -> TreeUiView {
    let here = here_at(vis, v.selected);
    if v.focus_active {
        let cur = top_dir(v.nodes, here as int);
        let t = restore_expanded(v.nodes, v.pre_focus);
        let target = match cur {
            Some(c) => c,
            None => 0,
        };
        match index_in(all_visible(t), target) {
            Some(pos) => TreeUiView { nodes: t, offset: 0, selected: pos, focus_active: false, ..v },
            None => TreeUiView { nodes: t, focus_active: false, ..v },
        }
    } else {
        let ft = top_dir(v.nodes, here as int);
        TreeUiView {
            nodes: tops_expanded(v.nodes, |i: usize| Some(i) == ft),
            pre_focus: top_snapshot(v.nodes),
            focus_active: true,
            ..v
        }
    }
}

/// `v`: expand every top-level directory if one is collapsed, else
/// collapse them all; select the top-level directory of the selection.
pub open spec fn view_all_spec(v: TreeUiView, vis: Seq<usize>) -> TreeUiView {
    let here = here_at(vis, v.selected);
    let cur = match top_dir(v.nodes, here as int) {
        Some(c) => c,
        None => 0,
    };
    let any = any_top_collapsed(v.nodes);
    let t = tops_expanded(v.nodes, |i: usize| any);
    match index_in(all_visible(t), cur) {
        Some(pos) => TreeUiView { nodes: t, offset: 0, selected: pos, focus_active: false, ..v },
        None => TreeUiView { nodes: t, focus_active: false, ..v },
    }
}

/// Enter / `o` on a directory toggles it.
pub open spec fn open_spec(v: TreeUiView, vis: Seq<usize>) -> TreeUiView {
    if (v.selected as int) < vis.len() {
        let i = vis[v.selected as int] as int;
        if v.nodes[i].is_dir {
            TreeUiView { nodes: with_expanded(v.nodes, i, !v.nodes[i].expanded), ..v }
        } else {
            v
        }
    } else {
        v
    }
}

impl TreeUi {
    /// A fresh view of the nodes: first row selected, nothing filtered.
    pub fn new(nodes: Vec<TreeNode>) -> (r: Self)
        ensures
            r@ == (TreeUiView {
                nodes: node_views(nodes@),
                selected: 0,
                offset: 0,
                search_mode: false,
                search: Seq::empty(),
                cursor: 0,
                focus_active: false,
                pre_focus: Seq::empty(),
                show_help: false,
                flag_mode: false,
                preview_scroll: 0,
                vim_active: false,
                vim_buffer: Seq::empty(),
                prev_filter: (Seq::empty(), 0),
            }),
    {
        TreeUi {
            nodes,
            selected: 0,
            offset: 0,
            search_mode: false,
            search_buffer: String::new(),
            cursor_pos: 0,
            focus_active: false,
            pre_focus_expanded: Vec::new(),
            show_help: false,
            flag_mode: false,
            preview_scroll: 0,
            vim: VimCommandMode::new(),
            prev_filter_text: String::new(),
            prev_filter_tags: 0,
        }
    }

    /// The rows on screen: the visible nodes under the current filter.
    pub fn visible(&self) -> (r: Vec<usize>)
        requires
            tree_ui_wf(self@),
        ensures
            r@ == tree_visible_filtered(self@.nodes, self@.search),
    {
        compute_visible_with_filter(self.nodes.as_slice(), self.search_buffer.as_str())
    }

    fn hop_exec(&mut self, here: usize, target: usize, fallback: usize)
        requires
            parents_before(old(self)@.nodes),
            here < old(self)@.nodes.len(),
            target < old(self)@.nodes.len(),
        ensures
            ({
                let (t, sel) = hop(old(self)@.nodes, here, target, old(self)@.focus_active, old(self)@.selected, fallback);
                final(self)@ == TreeUiView { nodes: t, selected: sel, ..old(self)@ }
            }),
            parents_before(final(self)@.nodes),
            final(self)@.nodes.len() == old(self)@.nodes.len(),
    {
        let ghost s = self@.nodes;
        if self.focus_active {
            let ot = find_top_dir(self.nodes.as_slice(), here);
            let nt = find_top_dir(self.nodes.as_slice(), target);
            if ot != nt {
                proof {
                    lemma_top_dir_bound(s, here as int);
                    lemma_top_dir_bound(s, target as int);
                }
                match ot {
                    Some(o) => {
                        set_expanded(&mut self.nodes, o, false);
                        proof {
                            lemma_expanded_keeps_parents(s, o as int, false);
                        }
                    },
                    None => {},
                }
                let ghost s1 = self@.nodes;
                assert(s1.len() == s.len());
                assert(self.nodes@.len() == s1.len());
                match nt {
                    Some(n) => {
                        set_expanded(&mut self.nodes, n, true);
                        proof {
                            lemma_expanded_keeps_parents(s1, n as int, true);
                        }
                    },
                    None => {},
                }
                let nv = get_visible_nodes(self.nodes.as_slice());
                match position_of(nv.as_slice(), target) {
                    Some(p) => {
                        self.selected = p;
                    },
                    None => {},
                }
                return;
            }
        }
        self.selected = fallback;
    }

    /// `j` / Down on the list `vis`.
    pub fn move_down(&mut self, vis: &[usize])
        requires
            tree_ui_wf(old(self)@),
            forall|k: int| 0 <= k < vis@.len() ==> (#[trigger] vis@[k] as int) < old(self)@.nodes.len(),
        ensures
            final(self)@ == move_down_spec(old(self)@, vis@),
            tree_ui_wf(final(self)@),
    {
        if self.selected < vis.len() && self.selected + 1 < vis.len() {
            let here = vis[self.selected];
            let target = vis[self.selected + 1];
            self.hop_exec(here, target, self.selected + 1);
        }
    }

    /// `k` / Up on the list `vis`.
    pub fn move_up(&mut self, vis: &[usize])
        requires
            tree_ui_wf(old(self)@),
            forall|k: int| 0 <= k < vis@.len() ==> (#[trigger] vis@[k] as int) < old(self)@.nodes.len(),
        ensures
            final(self)@ == move_up_spec(old(self)@, vis@),
            tree_ui_wf(final(self)@),
    {
        if self.selected > 0 && self.selected - 1 < vis.len() {
            let here = if self.selected < vis.len() {
                vis[self.selected]
            } else {
                0
            };
            let target = vis[self.selected - 1];
            self.hop_exec(here, target, self.selected - 1);
        }
    }

    /// `l` / Right on the list `vis`.
    pub fn expand(&mut self, vis: &[usize])
        requires
            tree_ui_wf(old(self)@),
            forall|k: int| 0 <= k < vis@.len() ==> (#[trigger] vis@[k] as int) < old(self)@.nodes.len(),
        ensures
            final(self)@ == expand_spec(old(self)@, vis@),
            tree_ui_wf(final(self)@),
    {
        if self.selected < vis.len() {
            let i = vis[self.selected];
            proof {
                assert(self@.nodes[i as int] == self.nodes@[i as int]@);
            }
            if self.nodes[i].is_dir && !self.nodes[i].expanded {
                let ghost s = self@.nodes;
                set_expanded(&mut self.nodes, i, true);
                self.focus_active = false;
                proof {
                    lemma_expanded_keeps_parents(s, i as int, true);
                }
            }
        }
    }

    /// `h` / Left on the list `vis`.
    pub fn collapse(&mut self, vis: &[usize])
        requires
            tree_ui_wf(old(self)@),
            forall|k: int| 0 <= k < vis@.len() ==> (#[trigger] vis@[k] as int) < old(self)@.nodes.len(),
        ensures
            final(self)@ == collapse_spec(old(self)@, vis@),
            tree_ui_wf(final(self)@),
    {
        if self.selected < vis.len() {
            let i = vis[self.selected];
            proof {
                assert(self@.nodes[i as int] == self.nodes@[i as int]@);
            }
            if self.nodes[i].is_dir && self.nodes[i].expanded {
                let ghost s = self@.nodes;
                set_expanded(&mut self.nodes, i, false);
                self.focus_active = false;
                proof {
                    lemma_expanded_keeps_parents(s, i as int, false);
                }
            } else {
                match self.nodes[i].parent_idx {
                    Some(p) => {
                        let all = get_visible_nodes(self.nodes.as_slice());
                        match position_of(all.as_slice(), p) {
                            Some(pos) => {
                                self.selected = pos;
                            },
                            None => {},
                        }
                    },
                    None => {},
                }
            }
        }
    }

    /// Enter / `o` on the list `vis`: toggles a directory, or asks to open
    /// the selected file.
    pub fn open(&mut self, vis: &[usize]) -> (r: TreeAction)
        requires
            tree_ui_wf(old(self)@),
            forall|k: int| 0 <= k < vis@.len() ==> (#[trigger] vis@[k] as int) < old(self)@.nodes.len(),
        ensures
            final(self)@ == open_spec(old(self)@, vis@),
            tree_ui_wf(final(self)@),
            match r {
                TreeAction::Open(p) => (old(self)@.selected as int) < vis@.len() && !old(self)@.nodes[vis@[old(self)@.selected as int] as int].is_dir
                    && p@ == old(self)@.nodes[vis@[old(self)@.selected as int] as int].path,
                TreeAction::Stay => !((old(self)@.selected as int) < vis@.len() && !old(self)@.nodes[vis@[old(self)@.selected as int] as int].is_dir),
                TreeAction::Quit => false,
            },
    {
        if self.selected < vis.len() {
            let i = vis[self.selected];
            proof {
                assert(self@.nodes[i as int] == self.nodes@[i as int]@);
            }
            if self.nodes[i].is_dir {
                let ghost s = self@.nodes;
                let b = !self.nodes[i].expanded;
                set_expanded(&mut self.nodes, i, b);
                proof {
                    lemma_expanded_keeps_parents(s, i as int, b);
                }
                TreeAction::Stay
            } else {
                TreeAction::Open(string_of(chars_of(self.nodes[i].path.as_str()).as_slice()))
            }
        } else {
            TreeAction::Stay
        }
    }
}

/// Record every top-level directory's expansion.
fn snapshot_tops(nodes: &Vec<TreeNode>) -> (r: Vec<(usize, bool)>)
    ensures
        r@ == top_snapshot(node_views(nodes@)),
{
    let ghost s = node_views(nodes@);
    let mut out: Vec<(usize, bool)> = Vec::new();
    let mut i: usize = 0;
    while i < nodes.len()
        invariant
            s == node_views(nodes@),
            i <= nodes@.len(),
            out@ == top_snapshot(s.take(i as int)),
        decreases nodes.len() - i,
    {
        proof {
            assert(s.take(i + 1).drop_last() =~= s.take(i as int));
            assert(s.take(i + 1)[i as int] == nodes@[i as int]@);
        }
        if nodes[i].is_dir && nodes[i].depth == 0 {
            out.push((i, nodes[i].expanded));
        }
        i = i + 1;
    }
    proof {
        assert(s.take(nodes@.len() as int) =~= s);
    }
    out
}

/// Put back recorded expansions.
fn restore_tops(nodes: &mut Vec<TreeNode>, pre: &Vec<(usize, bool)>)
    requires
        parents_before(node_views(old(nodes)@)),
    ensures
        node_views(final(nodes)@) == restore_expanded(node_views(old(nodes)@), pre@),
        parents_before(node_views(final(nodes)@)),
{
    let ghost s = node_views(nodes@);
    let mut k: usize = 0;
    proof {
        assert(pre@.take(0) =~= Seq::<(usize, bool)>::empty());
    }
    while k < pre.len()
        invariant
            s == node_views(old(nodes)@),
            parents_before(s),
            k <= pre@.len(),
            node_views(nodes@) == restore_expanded(s, pre@.take(k as int)),
        decreases pre.len() - k,
    {
        proof {
            assert(pre@.take(k + 1).drop_last() =~= pre@.take(k as int));
            lemma_restore_len(s, pre@.take(k as int));
        }
        let (i, b) = pre[k];
        if i < nodes.len() {
            set_expanded(nodes, i, b);
        }
        k = k + 1;
    }
    proof {
        assert(pre@.take(pre@.len() as int) =~= pre@);
        lemma_restore_len(s, pre@);
    }
}

/// Expand exactly the top-level directory `keep` (none if `None`), or, with
/// `all`, set every top-level directory to `value`.
fn set_tops(nodes: &mut Vec<TreeNode>, all: bool, value: bool, keep: Option<usize>)
    requires
        parents_before(node_views(old(nodes)@)),
    ensures
        all ==> node_views(final(nodes)@) == tops_expanded(node_views(old(nodes)@), |i: usize| value),
        !all ==> node_views(final(nodes)@) == tops_expanded(node_views(old(nodes)@), |i: usize| Some(i) == keep),
        parents_before(node_views(final(nodes)@)),
{
    let ghost s = node_views(nodes@);
    let ghost f = if all {
        |i: usize| value
    } else {
        |i: usize| Some(i) == keep
    };
    let n = nodes.len();
    let mut i: usize = 0;
    while i < n
        invariant
            s == node_views(old(nodes)@),
            n == nodes@.len(),
            n == s.len(),
            i <= n,
            f == (if all {
                |i: usize| value
            } else {
                |i: usize| Some(i) == keep
            }),
            forall|k: int| i <= k < n ==> #[trigger] node_views(nodes@)[k] == s[k],
            forall|k: int| 0 <= k < i ==> #[trigger] node_views(nodes@)[k] == tops_expanded(s, f)[k],
        decreases n - i,
    {
        let ghost before = nodes@;
        proof {
            assert(node_views(nodes@)[i as int] == nodes@[i as int]@);
        }
        if nodes[i].is_dir && nodes[i].depth == 0 {
            let b = if all {
                value
            } else {
                match keep {
                    Some(t) => t == i,
                    None => false,
                }
            };
            proof {
                assert(b == f(i));
            }
            nodes[i].expanded = b;
        }
        proof {
            assert forall|k: int| 0 <= k < n && k != i implies #[trigger] nodes@[k] == before[k] by {}
            assert forall|k: int| i + 1 <= k < n implies #[trigger] node_views(nodes@)[k] == s[k] by {
                assert(nodes@[k] == before[k]);
                assert(node_views(before)[k] == before[k]@);
            }
            assert forall|k: int| 0 <= k < i + 1 implies #[trigger] node_views(nodes@)[k] == tops_expanded(s, f)[k] by {
                if k < i {
                    assert(nodes@[k] == before[k]);
                    assert(node_views(before)[k] == before[k]@);
                } else {
                    assert(node_views(before)[k] == before[k]@);
                }
            }
        }
        i = i + 1;
    }
    proof {
        assert(node_views(nodes@) =~= tops_expanded(s, f));
        lemma_tops_keep_parents(s, f);
    }
}

impl TreeUi {
    /// `f` on the list `vis`.
    pub fn focus(&mut self, vis: &[usize])
        requires
            tree_ui_wf(old(self)@),
            forall|k: int| 0 <= k < vis@.len() ==> (#[trigger] vis@[k] as int) < old(self)@.nodes.len(),
        ensures
            final(self)@ == focus_spec(old(self)@, vis@),
            tree_ui_wf(final(self)@),
    {
        let here = if self.selected < vis.len() {
            vis[self.selected]
        } else {
            0
        };
        let ghost s = self@.nodes;
        if self.focus_active {
            let cur = find_top_dir(self.nodes.as_slice(), here);
            restore_tops(&mut self.nodes, &self.pre_focus_expanded);
            proof {
                lemma_restore_len(s, self@.pre_focus);
            }
            let nv = get_visible_nodes(self.nodes.as_slice());
            let target = match cur {
                Some(c) => c,
                None => 0,
            };
            match position_of(nv.as_slice(), target) {
                Some(pos) => {
                    self.offset = 0;
                    self.selected = pos;
                },
                None => {},
            }
            self.focus_active = false;
        } else {
            let pre = snapshot_tops(&self.nodes);
            let ft = find_top_dir(self.nodes.as_slice(), here);
            set_tops(&mut self.nodes, false, false, ft);
            self.pre_focus_expanded = pre;
            self.focus_active = true;
        }
    }

    /// `v` on the list `vis`.
    pub fn view_all(&mut self, vis: &[usize])
        requires
            tree_ui_wf(old(self)@),
            forall|k: int| 0 <= k < vis@.len() ==> (#[trigger] vis@[k] as int) < old(self)@.nodes.len(),
        ensures
            final(self)@ == view_all_spec(old(self)@, vis@),
            tree_ui_wf(final(self)@),
    {
        let here = if self.selected < vis.len() {
            vis[self.selected]
        } else {
            0
        };
        let ghost s = self@.nodes;
        let cur = match find_top_dir(self.nodes.as_slice(), here) {
            Some(c) => c,
            None => 0,
        };
        let mut any = false;
        let mut i: usize = 0;
        while i < self.nodes.len()
            invariant
                s == node_views(self.nodes@),
                i <= self.nodes@.len(),
                any == exists|k: int| 0 <= k < i && (#[trigger] s[k]).is_dir && s[k].depth == 0 && !s[k].expanded,
            decreases self.nodes.len() - i,
        {
            proof {
                assert(s[i as int] == self.nodes@[i as int]@);
            }
            if self.nodes[i].is_dir && self.nodes[i].depth == 0 && !self.nodes[i].expanded {
                any = true;
            }
            i = i + 1;
        }
        set_tops(&mut self.nodes, true, any, None);
        proof {
            assert((|i: usize| any) == (|i: usize| any_top_collapsed(s)));
        }
        let nv = get_visible_nodes(self.nodes.as_slice());
        match position_of(nv.as_slice(), cur) {
            Some(pos) => {
                self.offset = 0;
                self.selected = pos;
            },
            None => {},
        }
        self.focus_active = false;
    }
}

// ---------------------------------------------------------------------------
// Tags, filter and dispatch
// ---------------------------------------------------------------------------

/// What the view does, as a value.
pub enum TreeOutcome {
    Stay,
    Quit,
    Open(Seq<char>),
}

/// The outcome an action stands for.
pub open spec fn outcome_of(a: TreeAction) -> TreeOutcome {
    match a {
        TreeAction::Stay => TreeOutcome::Stay,
        TreeAction::Quit => TreeOutcome::Quit,
        TreeAction::Open(p) => TreeOutcome::Open(p@),
    }
}

/// Toggle tag `d` on the selected file (directories take their tags from
/// their children).
pub open spec fn toggle_tag_spec(v: TreeUiView, vis: Seq<usize>, d: int) -> TreeUiView {
    let i = here_at(vis, v.selected) as int;
    if i < v.nodes.len() && !v.nodes[i].is_dir {
        TreeUiView { nodes: v.nodes.update(i, NodeView { flags: v.nodes[i].flags ^ tag_bit(d), ..v.nodes[i] }), ..v }
    } else {
        v
    }
}

/// The tag a digit key picks in tag mode: `1` to `5`.
pub open spec fn digit_tag(key: Key) -> Option<int> {
    match key {
        Key::Char(c) => if '1' <= c && c <= '5' {
            Some(c as int - '1' as int)
        } else {
            None
        },
        _ => None,
    }
}

/// Keys that tag mode lets through to the other handlers: `/` and the
/// movement keys.
pub open spec fn tag_mode_passes(key: Key) -> bool {
    key == Key::Char('/') || key == Key::Char('j') || key == Key::Down || key == Key::Char('k') || key == Key::Up
        || key == Key::Char('h') || key == Key::Left || key == Key::Char('l') || key == Key::Right
}

/// A key that tag mode keeps: a digit toggles a tag, `t` or Esc leave the
/// mode, anything else is ignored.
pub open spec fn tag_mode_key(v: TreeUiView, vis: Seq<usize>, key: Key) -> TreeUiView {
    match digit_tag(key) {
        Some(d) => toggle_tag_spec(v, vis, d),
        None => if key == Key::Char('t') || key == Key::Esc {
            TreeUiView { flag_mode: false, ..v }
        } else {
            v
        },
    }
}

/// A key in normal mode on the filtered list `vis`.
pub open spec fn normal_key(v: TreeUiView, vis: Seq<usize>, key: Key) -> (TreeUiView, TreeOutcome) {
    match key {
        Key::Char('q') => (v, TreeOutcome::Quit),
        Key::Esc => if v.search.len() > 0 {
            (TreeUiView { search: Seq::empty(), ..v }, TreeOutcome::Stay)
        } else {
            (v, TreeOutcome::Quit)
        },
        Key::Char('j') | Key::Down => (move_down_spec(v, vis), TreeOutcome::Stay),
        Key::Char('k') | Key::Up => (move_up_spec(v, vis), TreeOutcome::Stay),
        Key::Char('l') | Key::Right => (expand_spec(v, vis), TreeOutcome::Stay),
        Key::Char('h') | Key::Left => (collapse_spec(v, vis), TreeOutcome::Stay),
        Key::Enter | Key::Char('o') => (
            open_spec(v, vis),
            if (v.selected as int) < vis.len() && !v.nodes[vis[v.selected as int] as int].is_dir {
                TreeOutcome::Open(v.nodes[vis[v.selected as int] as int].path)
            } else {
                TreeOutcome::Stay
            },
        ),
        Key::Char('f') => (focus_spec(v, vis), TreeOutcome::Stay),
        Key::Char('v') => (view_all_spec(v, vis), TreeOutcome::Stay),
        Key::Char('/') => (TreeUiView { search_mode: true, search: Seq::empty(), cursor: 0, ..v }, TreeOutcome::Stay),
        Key::Char('t') => (TreeUiView { flag_mode: true, ..v }, TreeOutcome::Stay),
        Key::Char('J') => (
            TreeUiView { preview_scroll: if v.preview_scroll < u16::MAX { (v.preview_scroll + 1) as u16 } else { v.preview_scroll }, ..v },
            TreeOutcome::Stay,
        ),
        Key::Char('K') => (
            TreeUiView { preview_scroll: if v.preview_scroll > 0 { (v.preview_scroll - 1) as u16 } else { 0 }, ..v },
            TreeOutcome::Stay,
        ),
        Key::Char('?') => (TreeUiView { show_help: true, ..v }, TreeOutcome::Stay),
        _ => (v, TreeOutcome::Stay),
    }
}

/// A key press in the tree view: Ctrl+C quits; an open help closes; tag
/// mode takes its keys; the filter field takes every key while typed in
/// (and the selection goes back to the first row); the `:` command line
/// takes its keys and quits on a quit command; the rest is normal mode.
pub open spec fn tree_key_spec(v: TreeUiView, key: Key, ctrl_c: bool) -> (TreeUiView, TreeOutcome) {
    let vis = tree_visible_filtered(v.nodes, v.search);
    if ctrl_c {
        (v, TreeOutcome::Quit)
    } else if v.show_help {
        (TreeUiView { show_help: false, ..v }, TreeOutcome::Stay)
    } else if v.flag_mode && !tag_mode_passes(key) {
        (tag_mode_key(v, vis, key), TreeOutcome::Stay)
    } else {
        let v1 = if v.flag_mode && key == Key::Char('/') {
            TreeUiView { flag_mode: false, ..v }
        } else {
            v
        };
        if v1.search_mode {
            let f = search_key_spec(FieldView { typing: true, text: v1.search, cursor: v1.cursor }, key);
            (TreeUiView { search_mode: f.typing, search: f.text, cursor: f.cursor, selected: 0, ..v1 }, TreeOutcome::Stay)
        } else {
            let (act, buf, cmd) = vim_step(v1.vim_active, v1.vim_buffer, key);
            let v2 = TreeUiView { vim_active: act, vim_buffer: buf, ..v1 };
            match cmd {
                Some(c) => (v2, if VimCommandMode::quit_spec(c) {
                    TreeOutcome::Quit
                } else {
                    TreeOutcome::Stay
                }),
                None => if act {
                    (v2, TreeOutcome::Stay)
                } else {
                    normal_key(v2, tree_visible_filtered(v2.nodes, v2.search), key)
                },
            }
        }
    }
}

impl TreeUi {
    /// Toggle tag `d` on the selected file of the list `vis`.
    pub fn toggle_tag(&mut self, vis: &[usize], d: usize)
        requires
            tree_ui_wf(old(self)@),
            d < TAG_COUNT,
        ensures
            final(self)@ == toggle_tag_spec(old(self)@, vis@, d as int),
            tree_ui_wf(final(self)@),
    {
        let i = if self.selected < vis.len() {
            vis[self.selected]
        } else {
            0
        };
        if i < self.nodes.len() {
            proof {
                assert(self@.nodes[i as int] == self.nodes@[i as int]@);
            }
            if !self.nodes[i].is_dir {
                let ghost s = self@.nodes;
                let bit = tag_bit_exec(d);
                self.nodes[i].flags = self.nodes[i].flags ^ bit;
                proof {
                    assert(self@.nodes =~= s.update(i as int, NodeView { flags: s[i as int].flags ^ tag_bit(d as int), ..s[i as int] }));
                    assert forall|k: int| 0 <= k < self@.nodes.len() && (#[trigger] self@.nodes[k]).parent_idx is Some implies self@.nodes[k].parent_idx->0 < k by {
                        assert(self@.nodes[k].parent_idx == s[k].parent_idx);
                    }
                }
            }
        }
    }

    /// Handle a key press; `ctrl_c` tells that it came with Control and is `c`.
    pub fn handle_key(&mut self, key: Key, ctrl_c: bool) -> (r: TreeAction)
        requires
            tree_ui_wf(old(self)@),
            encode_utf8(old(self)@.search).len() + 4 <= usize::MAX,
        ensures
            (final(self)@, outcome_of(r)) == tree_key_spec(old(self)@, key, ctrl_c),
            tree_ui_wf(final(self)@),
    {
        if ctrl_c {
            return TreeAction::Quit;
        }
        if self.show_help {
            self.show_help = false;
            return TreeAction::Stay;
        }
        let passes = key == Key::Char('/') || key == Key::Char('j') || key == Key::Down || key == Key::Char('k')
            || key == Key::Up || key == Key::Char('h') || key == Key::Left || key == Key::Char('l') || key
            == Key::Right;
        if self.flag_mode && !passes {
            let vis = self.visible();
            let digit: Option<usize> = match key {
                Key::Char(c) => if '1' <= c && c <= '5' {
                    Some((c as u32 - 49) as usize)
                } else {
                    None
                },
                _ => None,
            };
            match digit {
                Some(d) => {
                    self.toggle_tag(vis.as_slice(), d);
                },
                None => {
                    if key == Key::Char('t') || key == Key::Esc {
                        self.flag_mode = false;
                    }
                },
            }
            return TreeAction::Stay;
        }
        if self.flag_mode && key == Key::Char('/') {
            self.flag_mode = false;
        }
        if self.search_mode {
            search_key(&mut self.search_mode, &mut self.search_buffer, &mut self.cursor_pos, key);
            self.selected = 0;
            return TreeAction::Stay;
        }
        let cmd = self.vim.handle_key(key);
        match cmd {
            Some(c) => {
                if VimCommandMode::is_quit(c.as_str()) {
                    return TreeAction::Quit;
                }
                return TreeAction::Stay;
            },
            None => {},
        }
        if self.vim.active {
            return TreeAction::Stay;
        }
        let vis = self.visible();
        proof {
            lemma_visible_below(self@.nodes, self@.search);
        }
        match key {
            Key::Char('q') => TreeAction::Quit,
            Key::Esc => {
                if !self.search_buffer.as_str().is_empty() {
                    self.search_buffer = String::new();
                    TreeAction::Stay
                } else {
                    TreeAction::Quit
                }
            },
            Key::Char('j') | Key::Down => {
                self.move_down(vis.as_slice());
                TreeAction::Stay
            },
            Key::Char('k') | Key::Up => {
                self.move_up(vis.as_slice());
                TreeAction::Stay
            },
            Key::Char('l') | Key::Right => {
                self.expand(vis.as_slice());
                TreeAction::Stay
            },
            Key::Char('h') | Key::Left => {
                self.collapse(vis.as_slice());
                TreeAction::Stay
            },
            Key::Enter | Key::Char('o') => self.open(vis.as_slice()),
            Key::Char('f') => {
                self.focus(vis.as_slice());
                TreeAction::Stay
            },
            Key::Char('v') => {
                self.view_all(vis.as_slice());
                TreeAction::Stay
            },
            Key::Char('/') => {
                self.search_mode = true;
                self.search_buffer = String::new();
                self.cursor_pos = 0;
                TreeAction::Stay
            },
            Key::Char('t') => {
                self.flag_mode = true;
                TreeAction::Stay
            },
            Key::Char('J') => {
                self.preview_scroll = self.preview_scroll.saturating_add(1);
                TreeAction::Stay
            },
            Key::Char('K') => {
                self.preview_scroll = self.preview_scroll.saturating_sub(1);
                TreeAction::Stay
            },
            Key::Char('?') => {
                self.show_help = true;
                TreeAction::Stay
            },
            _ => TreeAction::Stay,
        }
    }
}

proof fn lemma_visible_below(s: Seq<NodeView>, search: Seq<char>)
    ensures
        forall|k: int| 0 <= k < tree_visible_filtered(s, search).len() ==> (#[trigger] tree_visible_filtered(s, search)[k] as int) < s.len(),
{
    lemma_visible_upto_below(s, s.len() as int);
    let all = visible_nodes_upto(s, s.len() as int);
    let (tq, ts) = filter_sets(search);
    if !(tq.len() == 0 && ts.len() == 0) {
        let f = crate::tree::node_keep_pred(s, tq, ts);
        lemma_filter_below(all, f, s.len() as int);
    }
}

pub proof fn lemma_filter_below(v: Seq<usize>, f: spec_fn(usize) -> bool, n: int)
    requires
        forall|k: int| 0 <= k < v.len() ==> (#[trigger] v[k] as int) < n,
    ensures
        forall|k: int| 0 <= k < v.filter(f).len() ==> (#[trigger] v.filter(f)[k] as int) < n,
    decreases v.len(),
{
    reveal(Seq::filter);
    if v.len() > 0 {
        lemma_filter_below(v.drop_last(), f, n);
        let p = v.drop_last().filter(f);
        assert forall|k: int| 0 <= k < v.filter(f).len() implies (#[trigger] v.filter(f)[k] as int) < n by {
            if k < p.len() {
                assert(v.filter(f)[k] == p[k]);
            }
        }
    }
}

proof fn lemma_visible_upto_below(s: Seq<NodeView>, n: int)
    requires
        0 <= n <= s.len(),
    ensures
        forall|k: int| 0 <= k < visible_nodes_upto(s, n).len() ==> (#[trigger] visible_nodes_upto(s, n)[k] as int) < n,
    decreases n,
{
    if n > 0 {
        lemma_visible_upto_below(s, n - 1);
        let prev = visible_nodes_upto(s, n - 1);
        let cur = visible_nodes_upto(s, n);
        assert forall|k: int| 0 <= k < cur.len() implies (#[trigger] cur[k] as int) < n by {
            if k < prev.len() {
                assert(cur[k] == prev[k]);
            }
        }
    }
}

// ---------------------------------------------------------------------------
// Mouse and refresh
// ---------------------------------------------------------------------------

/// A mouse event.  The wheel scrolls the preview by three lines.  A left
/// click on the filter strip toggles the tag of the dot under it (cursor
/// to the end of the filter), or elsewhere on the strip starts typing in
/// the filter.  A left click on a row of the list (`vm`, the rows as last
/// drawn, scrolled by the list offset) selects it; on a file's tag dot it
/// toggles that tag, on a directory it expands or collapses it.
pub open spec fn tree_mouse_spec(v: TreeUiView, m: Mouse, strip: Area, list: Area, vm: Seq<usize>) -> TreeUiView {
    match m.kind {
        MouseKind::ScrollDown => TreeUiView { preview_scroll: sat_add16(v.preview_scroll, 3), ..v },
        MouseKind::ScrollUp => TreeUiView { preview_scroll: sat_sub16(v.preview_scroll, 3), ..v },
        MouseKind::LeftDown => if m.row == strip.y {
            match dot_at(m.column as int, strip.x as int) {
                Some(d) => {
                    let t = toggled_filter(v.search, tag_name(d as int));
                    TreeUiView { search: t, cursor: encode_utf8(t).len() as usize, ..v }
                },
                None => TreeUiView { search_mode: true, cursor: encode_utf8(v.search).len() as usize, ..v },
            }
        } else if in_area(list, m.column, m.row) {
            let vi = v.offset + (m.row - list.y);
            if vi < vm.len() {
                let here = vm[vi];
                let v1 = match index_in(vm, here) {
                    Some(pos) => TreeUiView { selected: pos, ..v },
                    None => v,
                };
                let n = v.nodes[here as int];
                if !n.is_dir && dot_at(m.column as int, list.x as int) is Some {
                    let d = dot_at(m.column as int, list.x as int)->0;
                    TreeUiView { nodes: v.nodes.update(here as int, NodeView { flags: n.flags ^ tag_bit(d as int), ..n }), ..v1 }
                } else if n.is_dir {
                    TreeUiView { nodes: with_expanded(v.nodes, here as int, !n.expanded), ..v1 }
                } else {
                    v1
                }
            } else {
                v
            }
        } else {
            v
        },
        _ => v,
    }
}

/// Before each draw: every directory takes the union of its children's
/// tags; and when the filter has just changed to an active one, every
/// directory it keeps is expanded.
pub open spec fn refreshed(old: TreeUiView, new: TreeUiView) -> bool {
    let f = filter_flat(old.search);
    let sets = filter_sets(old.search);
    let expand = (f.0.len() > 0 || f.1 != 0) && f != old.prev_filter;
    &&& new.nodes.len() == old.nodes.len()
    &&& forall|i: int|
        0 <= i < new.nodes.len() ==> {
            let a = #[trigger] old.nodes[i];
            let b = new.nodes[i];
            &&& same_but_flags(a, NodeView { expanded: a.expanded, ..b })
            &&& !a.is_dir ==> b.flags == a.flags
            &&& a.is_dir ==> dir_flags_derived(new.nodes, i)
            &&& b.expanded == (a.expanded || (expand && a.is_dir && node_kept(new.nodes, sets.0, sets.1, i)))
        }
    &&& new.prev_filter == f
    &&& new == TreeUiView { nodes: new.nodes, prev_filter: new.prev_filter, ..old }
}

impl TreeUi {
    /// A left click on the filter strip.
    fn click_strip(&mut self, m: Mouse, strip: Area)
        requires
            tree_ui_wf(old(self)@),
            strip.x + 9 <= u16::MAX,
            m.kind == MouseKind::LeftDown,
            m.row == strip.y,
        ensures
            final(self)@ == tree_mouse_spec(old(self)@, m, strip, strip, Seq::empty()),
            tree_ui_wf(final(self)@),
    {
        match mouse_x_to_filter_dot(m.column, strip.x) {
            Some(d) => {
                let name = tag_name_string(d as usize);
                toggle_filter_tag(&mut self.search_buffer, name.as_str());
                self.cursor_pos = self.search_buffer.as_str().as_bytes().len();
            },
            None => {
                self.search_mode = true;
                self.cursor_pos = self.search_buffer.as_str().as_bytes().len();
            },
        }
        proof {
            crate::input::lemma_boundary_prefix(self@.search, encode_utf8(self@.search).len() as int);
            assert(self@.search.take(self@.search.len() as int) =~= self@.search);
            assert(crate::input::prefix_bytes(self@.search, self@.search.len() as int) == encode_utf8(self@.search).len());
        }
    }

    /// A left click inside the list area.
    fn click_list(&mut self, m: Mouse, list: Area, vm: &[usize])
        requires
            tree_ui_wf(old(self)@),
            list.x + 9 <= u16::MAX,
            m.kind == MouseKind::LeftDown,
            in_area(list, m.column, m.row),
            old(self)@.offset + u16::MAX <= usize::MAX,
            forall|k: int| 0 <= k < vm@.len() ==> (#[trigger] vm@[k] as int) < old(self)@.nodes.len(),
        ensures
            ({
                let strip = Area { x: 0, y: (if m.row == 0 { 1u16 } else { 0u16 }), width: 0, height: 0 };
                final(self)@ == tree_mouse_spec(old(self)@, m, strip, list, vm@)
            }),
            tree_ui_wf(final(self)@),
    {
        let vi = self.offset + (m.row - list.y) as usize;
        if vi < vm.len() {
            let here = vm[vi];
            match position_of(vm, here) {
                Some(pos) => {
                    self.selected = pos;
                },
                None => {},
            }
            proof {
                assert(self@.nodes[here as int] == self.nodes@[here as int]@);
            }
            let ghost s = self@.nodes;
            let dot = mouse_x_to_filter_dot(m.column, list.x);
            if !self.nodes[here].is_dir && dot.is_some() {
                let d = match dot {
                    Some(d) => d,
                    None => 0,
                };
                let bit = tag_bit_exec(d as usize);
                self.nodes[here].flags = self.nodes[here].flags ^ bit;
                proof {
                    assert(self@.nodes =~= s.update(here as int, NodeView { flags: s[here as int].flags ^ tag_bit(d as int), ..s[here as int] }));
                    assert forall|k: int| 0 <= k < self@.nodes.len() && (#[trigger] self@.nodes[k]).parent_idx is Some implies self@.nodes[k].parent_idx->0 < k by {
                        assert(self@.nodes[k].parent_idx == s[k].parent_idx);
                    }
                }
            } else if self.nodes[here].is_dir {
                let b = !self.nodes[here].expanded;
                set_expanded(&mut self.nodes, here, b);
                proof {
                    lemma_expanded_keeps_parents(s, here as int, b);
                }
            }
        }
    }

    /// Handle a mouse event; `strip` and `list` are where the filter strip
    /// and the list were drawn, `vm` the rows drawn.
    pub fn handle_mouse(&mut self, m: Mouse, strip: Area, list: Area, vm: &[usize])
        requires
            tree_ui_wf(old(self)@),
            strip.x + 9 <= u16::MAX,
            list.x + 9 <= u16::MAX,
            old(self)@.offset + u16::MAX <= usize::MAX,
            forall|k: int| 0 <= k < vm@.len() ==> (#[trigger] vm@[k] as int) < old(self)@.nodes.len(),
        ensures
            final(self)@ == tree_mouse_spec(old(self)@, m, strip, list, vm@),
            tree_ui_wf(final(self)@),
    {
        match m.kind {
            MouseKind::ScrollDown => {
                self.preview_scroll = self.preview_scroll.saturating_add(3);
            },
            MouseKind::ScrollUp => {
                self.preview_scroll = self.preview_scroll.saturating_sub(3);
            },
            MouseKind::LeftDown => {
                if m.row == strip.y {
                    self.click_strip(m, strip);
                } else if cell_in_area(list, m.column, m.row) {
                    self.click_list(m, list, vm);
                }
            },
            _ => {},
        }
    }

    /// Bring the nodes up to date before drawing.
    pub fn refresh(&mut self)
        requires
            tree_ui_wf(old(self)@),
        ensures
            refreshed(old(self)@, final(self)@),
            tree_ui_wf(final(self)@),
    {
        let ghost s0 = self@.nodes;
        derive_dir_flags(&mut self.nodes);
        let ghost s1 = self@.nodes;
        proof {
            assert forall|k: int| 0 <= k < s1.len() && (#[trigger] s1[k]).parent_idx is Some implies s1[k].parent_idx->0 < k by {
                assert(same_but_flags(s0[k], s1[k]));
            }
        }
        let (text, tags) = parse_filter(self.search_buffer.as_str());
        let active = !text.as_str().is_empty() || tags != 0;
        let changed = !crate::tree::eq_chars(chars_of(text.as_str()).as_slice(), chars_of(self.prev_filter_text.as_str()).as_slice())
            || tags != self.prev_filter_tags;
        if active && changed {
            expand_filter_matches(&mut self.nodes, self.search_buffer.as_str());
        }
        proof {
            let s2 = self@.nodes;
            let sets = filter_sets(self@.search);
            assert(same_shape_and_tags(s1, s2)) by {
                assert forall|m: int| 0 <= m < s1.len() implies s1[m].depth == (#[trigger] s2[m]).depth && s1[m].parent_idx
                    == s2[m].parent_idx && s1[m].flags == s2[m].flags && s1[m].name == s2[m].name by {
                    if active && changed {
                        assert(s2[m] == self.nodes@[m]@);
                    }
                }
            }
            assert forall|i: int| 0 <= i < s2.len() && s0[i].is_dir implies dir_flags_derived(s2, i) by {
                lemma_derived_frame(s1, s2, i);
            }
            assert forall|i: int| 0 <= i < s2.len() implies node_kept(s1, sets.0, sets.1, i) == node_kept(s2, sets.0, sets.1, i) by {
                lemma_kept_frame(s1, s2, sets.0, sets.1, i);
            }
            assert forall|k: int| 0 <= k < s2.len() && (#[trigger] s2[k]).parent_idx is Some implies s2[k].parent_idx->0 < k by {
                assert(s1[k].parent_idx == s2[k].parent_idx);
            }
        }
        self.prev_filter_text = text;
        self.prev_filter_tags = tags;
    }
}

proof fn lemma_top_dir_bound(s: Seq<NodeView>, i: int)
    requires
        parents_before(s),
        0 <= i < s.len(),
    ensures
        match top_dir(s, i) {
            Some(t) => (t as int) < s.len(),
            None => true,
        },
    decreases i,
{
    if s[i].depth != 0 && s[i].parent_idx is Some && s[i].parent_idx->0 < i {
        lemma_top_dir_bound(s, s[i].parent_idx->0 as int);
    }
}

} // verus!
