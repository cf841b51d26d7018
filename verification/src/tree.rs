//! The note tree: nodes in display order with parent links, ordering of a
//! directory's entries, visibility under collapsed directories, filters,
//! directory tag aggregation, and the `.tags` file.
use vstd::prelude::*;
use crate::tags::{filter_sets, is_subsequence, parse_filter_sets};
use crate::text::{
    append_chars, chars_of, free_of, lemma_lines_state_line, lemma_split_once_at, lemma_trim_plain,
    lines, lines_state, lowercase, split_lines, split_once, split_once_chars, string_of, strip_cr, trim,
    trim_chars, views,
};
use crate::todo_list::{fuzzy, matches_filter};
use crate::numbering::{digit_value, is_digit, string_views};
use crate::paths::{display_relative, parent_of, parent_path, relative_display};
use crate::order::{picks_exactly, sort_order, sorted_by_key};
use crate::tags::all_digits;

verus! {

/// The scope icon a top-level directory shows.
#[derive(PartialEq, Eq, Structural, Clone, Copy, Debug)]
pub enum Scope {
    Unmarked,
    Private,
    Public,
}

/// One row of the note tree.
pub struct TreeNode {
    pub name: String,
    pub path: String,
    pub is_dir: bool,
    pub depth: usize,
    pub expanded: bool,
    pub child_count: usize,
    pub parent_idx: Option<usize>,
    pub flags: u8,
    pub scope: Scope,
}

/// The mathematical content of a `TreeNode`.
pub struct NodeView {
    pub name: Seq<char>,
    pub path: Seq<char>,
    pub is_dir: bool,
    pub depth: usize,
    pub expanded: bool,
    pub child_count: usize,
    pub parent_idx: Option<usize>,
    pub flags: u8,
    pub scope: Scope,
}

impl View for TreeNode {
    type V = NodeView;

    open spec fn view(&self) -> NodeView {
        NodeView {
            name: self.name@,
            path: self.path@,
            is_dir: self.is_dir,
            depth: self.depth,
            expanded: self.expanded,
            child_count: self.child_count,
            parent_idx: self.parent_idx,
            flags: self.flags,
            scope: self.scope,
        }
    }
}

/// The views of a sequence of nodes.
pub open spec fn node_views(s: Seq<TreeNode>) -> Seq<NodeView> {
    s.map_values(|n: TreeNode| n@)
}

/// Every parent comes before its child (so walking up always ends).
pub open spec fn parents_before(s: Seq<NodeView>) -> bool {
    forall|i: int| 0 <= i < s.len() && (#[trigger] s[i]).parent_idx is Some ==> s[i].parent_idx->0 < i
}

/// `x` is a proper ancestor of `m`: reached by following parent links.
pub open spec fn ancestor(s: Seq<NodeView>, x: int, m: int) -> bool
    decreases m,
{
    if 0 <= m < s.len() && s[m].parent_idx is Some && s[m].parent_idx->0 < m {
        let p = s[m].parent_idx->0 as int;
        p == x || ancestor(s, x, p)
    } else {
        false
    }
}

// ---------------------------------------------------------------------------
// Visibility
// ---------------------------------------------------------------------------

/// Every ancestor of `i` is expanded.
pub open spec fn ancestors_expanded(s: Seq<NodeView>, i: int) -> bool
    decreases i,
{
    if 0 <= i < s.len() && s[i].parent_idx is Some && s[i].parent_idx->0 < i {
        let p = s[i].parent_idx->0 as int;
        s[p].expanded && ancestors_expanded(s, p)
    } else {
        true
    }
}

/// A node is visible when it is top-level or all its ancestors are expanded.
pub open spec fn node_visible(s: Seq<NodeView>, i: int) -> bool {
    s[i].depth == 0 || ancestors_expanded(s, i)
}

/// The visible nodes among the first `n`, in order.
pub open spec fn visible_nodes_upto(s: Seq<NodeView>, n: int) -> Seq<usize>
    decreases n,
{
    if n <= 0 {
        Seq::empty()
    } else if node_visible(s, n - 1) {
        visible_nodes_upto(s, n - 1).push((n - 1) as usize)
    } else {
        visible_nodes_upto(s, n - 1)
    }
}

/// Indices of visible nodes, in order.
pub fn get_visible_nodes(nodes: &[TreeNode]) -> (r: Vec<usize>)
    requires
        parents_before(node_views(nodes@)),
    ensures
        r@ == visible_nodes_upto(node_views(nodes@), nodes@.len() as int),
{
    let ghost s = node_views(nodes@);
    let mut visible: Vec<usize> = Vec::new();
    let mut idx: usize = 0;
    while idx < nodes.len()
        invariant
            s == node_views(nodes@),
            parents_before(s),
            idx <= nodes@.len(),
            visible@ == visible_nodes_upto(s, idx as int),
        decreases nodes.len() - idx,
    {
        proof {
            assert(s[idx as int] == nodes@[idx as int]@);
        }
        if nodes[idx].depth == 0 {
            visible.push(idx);
        } else {
            let mut ok = true;
            let mut check = nodes[idx].parent_idx;
            let mut cur: usize = idx;
            while check.is_some() && ok
                invariant
                    s == node_views(nodes@),
                    parents_before(s),
                    cur <= idx < nodes@.len(),
                    check == s[cur as int].parent_idx,
                    ok ==> ancestors_expanded(s, idx as int) == ancestors_expanded(s, cur as int),
                    !ok ==> !ancestors_expanded(s, idx as int),
                decreases cur, if ok { 1int } else { 0int },
            {
                let p = match check {
                    Some(p) => p,
                    None => 0,
                };
                proof {
                    assert(s[cur as int].parent_idx->0 < cur);
                    assert(s[p as int] == nodes@[p as int]@);
                }
                if !nodes[p].expanded {
                    ok = false;
                } else {
                    check = nodes[p].parent_idx;
                    cur = p;
                }
            }
            if ok {
                visible.push(idx);
            }
        }
        idx = idx + 1;
    }
    visible
}

/// The top-level directory containing node `idx`: itself at depth 0, else
/// the first ancestor at depth 0.
pub open spec fn top_dir(s: Seq<NodeView>, idx: int) -> Option<usize>
    decreases idx,
{
    if 0 <= idx < s.len() && s[idx].depth == 0 {
        Some(idx as usize)
    } else if 0 <= idx < s.len() && s[idx].parent_idx is Some && s[idx].parent_idx->0 < idx {
        top_dir(s, s[idx].parent_idx->0 as int)
    } else {
        None
    }
}

/// Find the top-level (depth 0) directory containing the given node.
pub fn find_top_dir(nodes: &[TreeNode], idx: usize) -> (r: Option<usize>)
    requires
        idx < nodes@.len(),
        parents_before(node_views(nodes@)),
    ensures
        r == top_dir(node_views(nodes@), idx as int),
{
    let ghost s = node_views(nodes@);
    let mut cur = idx;
    loop
        invariant
            s == node_views(nodes@),
            parents_before(s),
            cur < nodes@.len(),
            top_dir(s, idx as int) == top_dir(s, cur as int),
        decreases cur,
    {
        proof {
            assert(s[cur as int] == nodes@[cur as int]@);
        }
        if nodes[cur].depth == 0 {
            return Some(cur);
        }
        match nodes[cur].parent_idx {
            Some(p) => {
                proof {
                    assert(p < cur);
                }
                cur = p;
            },
            None => {
                return None;
            },
        }
    }
}

// ---------------------------------------------------------------------------
// Filtering
// ---------------------------------------------------------------------------

/// A node matches a filter: its name fuzzily matches the text query (if
/// any) and it has a tag of every tag set.
pub open spec fn node_matches_spec(n: NodeView, tq: Seq<char>, ts: Seq<u8>) -> bool {
    &&& (tq.len() == 0 || fuzzy(n.name, tq))
    &&& forall|k: int| 0 <= k < ts.len() ==> n.flags & #[trigger] ts[k] != 0
}

/// Whether a node matches a filter.
pub fn node_matches(node: &TreeNode, text_query: &str, tag_sets: &[u8]) -> (r: bool)
    ensures
        r == node_matches_spec(node@, text_query@, tag_sets@),
{
    if !text_query.is_empty() {
        if !crate::tags::fuzzy_match(node.name.as_str(), text_query) {
            return false;
        }
    }
    let mut k: usize = 0;
    while k < tag_sets.len()
        invariant
            k <= tag_sets@.len(),
            forall|m: int| 0 <= m < k ==> node.flags & #[trigger] tag_sets@[m] != 0,
        decreases tag_sets.len() - k,
    {
        if node.flags & tag_sets[k] == 0 {
            return false;
        }
        k = k + 1;
    }
    true
}

/// A filter keeps the matching nodes and every ancestor of a matching node.
pub open spec fn node_kept(s: Seq<NodeView>, tq: Seq<char>, ts: Seq<u8>, x: int) -> bool {
    node_matches_spec(s[x], tq, ts) || exists|m: int| 0 <= m < s.len() && node_matches_spec(s[m], tq, ts) && #[trigger] ancestor(s, x, m)
}

proof fn lemma_ancestor_step(s: Seq<NodeView>, x: int, m: int)
    requires
        parents_before(s),
        0 <= m < s.len(),
        s[m].parent_idx is Some,
    ensures
        ancestor(s, x, m) == (s[m].parent_idx->0 as int == x || ancestor(s, x, s[m].parent_idx->0 as int)),
{
}

proof fn lemma_ancestor_trans(s: Seq<NodeView>, x: int, y: int, m: int)
    requires
        parents_before(s),
        ancestor(s, x, y),
        ancestor(s, y, m),
    ensures
        ancestor(s, x, m),
    decreases m,
{
    let p = s[m].parent_idx->0 as int;
    if p != y {
        lemma_ancestor_trans(s, x, y, p);
    }
}

proof fn lemma_ancestor_below(s: Seq<NodeView>, x: int, m: int)
    requires
        ancestor(s, x, m),
    ensures
        0 <= x < m,
    decreases m,
{
    let p = s[m].parent_idx->0 as int;
    if p != x {
        lemma_ancestor_below(s, x, p);
    }
}

/// Mark every node that matches the filter and walk back up to include all of its
/// ancestors so the filter result still has tree context.
pub fn compute_node_filter_keep(nodes: &[TreeNode], text_query: &str, tag_sets: &[u8]) -> (r: Vec<bool>)
    requires
        parents_before(node_views(nodes@)),
    ensures
        r@.len() == nodes@.len(),
        forall|x: int| 0 <= x < r@.len() ==> #[trigger] r@[x] == node_kept(node_views(nodes@), text_query@, tag_sets@, x),
{
    let ghost s = node_views(nodes@);
    let n = nodes.len();
    let mut keep: Vec<bool> = Vec::new();
    let mut i: usize = 0;
    while i < n
        invariant
            n == nodes@.len(),
            s == node_views(nodes@),
            i <= n,
            keep@.len() == i,
            forall|x: int| 0 <= x < i ==> #[trigger] keep@[x] == node_matches_spec(s[x], text_query@, tag_sets@),
        decreases n - i,
    {
        proof {
            assert(s[i as int] == nodes@[i as int]@);
        }
        let m = node_matches(&nodes[i], text_query, tag_sets);
        keep.push(m);
        i = i + 1;
    }
    let mut i: usize = 0;
    while i < n
        invariant
            n == nodes@.len(),
            s == node_views(nodes@),
            parents_before(s),
            i <= n,
            keep@.len() == n,
            forall|x: int| i <= x < n ==> #[trigger] keep@[x] == node_matches_spec(s[x], text_query@, tag_sets@),
            forall|x: int|
                0 <= x < i ==> (#[trigger] keep@[x] == (node_matches_spec(s[x], text_query@, tag_sets@)
                    || exists|m: int| 0 <= m < i && node_matches_spec(s[m], text_query@, tag_sets@) && #[trigger] ancestor(s, x, m))),
            forall|x: int, y: int| 0 <= y < i && keep@[y] && #[trigger] ancestor(s, x, y) ==> #[trigger] keep@[x],
        decreases n - i,
    {
        if keep[i] {
            let ghost start = keep@;
            let mut cur: usize = i;
            let mut up = nodes[i].parent_idx;
            let mut stop = false;
            proof {
                assert(s[i as int] == nodes@[i as int]@);
                assert forall|x: int| 0 <= x < n implies #[trigger] keep@[x] == (start[x] || (ancestor(s, x, i as int) && !ancestor(s, x, cur as int))) by {}
            }
            while up.is_some() && !stop
                invariant
                    n == nodes@.len(),
                    s == node_views(nodes@),
                    parents_before(s),
                    i < n,
                    cur <= i,
                    start.len() == n,
                    up == s[cur as int].parent_idx,
                    keep@.len() == n,
                    cur == i || ancestor(s, cur as int, i as int),
                    stop ==> up is Some && (up->0 as int) < i && start[up->0 as int] && up->0 < cur,
                    forall|x: int, y: int| 0 <= y < i && start[y] && #[trigger] ancestor(s, x, y) ==> #[trigger] start[x],
                    forall|x: int| 0 <= x < n ==> #[trigger] keep@[x] == (start[x] || (ancestor(s, x, i as int) && !ancestor(s, x, cur as int))),
                decreases cur, !stop as int,
            {
                let p = match up {
                    Some(p) => p,
                    None => 0,
                };
                proof {
                    assert(p < cur);
                    assert(s[p as int] == nodes@[p as int]@);
                    assert(ancestor(s, p as int, cur as int));
                    if cur != i {
                        lemma_ancestor_trans(s, p as int, cur as int, i as int);
                    }
                }
                if keep[p] {
                    proof {
                        assert(!(ancestor(s, p as int, i as int) && !ancestor(s, p as int, cur as int)));
                        assert(start[p as int]);
                    }
                    stop = true;
                } else {
                    keep.set(p, true);
                    up = nodes[p].parent_idx;
                    let ghost old_cur = cur;
                    cur = p;
                    proof {
                        assert forall|x: int| 0 <= x < n implies #[trigger] keep@[x] == (start[x] || (ancestor(s, x, i as int) && !ancestor(s, x, cur as int))) by {
                            lemma_ancestor_step(s, x, old_cur as int);
                            if ancestor(s, x, x) {
                                lemma_ancestor_below(s, x, x);
                            }
                        }
                    }
                }
            }
            proof {
                assert forall|x: int| 0 <= x < n implies #[trigger] keep@[x] == (start[x] || ancestor(s, x, i as int)) by {
                    if ancestor(s, x, i as int) && ancestor(s, x, cur as int) {
                        if stop {
                            let p = up->0 as int;
                            lemma_ancestor_step(s, x, cur as int);
                            if x != p {
                                assert(ancestor(s, x, p));
                            }
                        } else {
                            assert(s[cur as int].parent_idx is None);
                        }
                    }
                }
                assert forall|x: int|
                    0 <= x < i + 1 implies (#[trigger] keep@[x] == (node_matches_spec(s[x], text_query@, tag_sets@)
                        || exists|m: int| 0 <= m < i + 1 && node_matches_spec(s[m], text_query@, tag_sets@) && #[trigger] ancestor(s, x, m))) by {
                    if x == i {
                        if exists|m: int| 0 <= m < i + 1 && node_matches_spec(s[m], text_query@, tag_sets@) && #[trigger] ancestor(s, x, m) {
                            let m = choose|m: int| 0 <= m < i + 1 && node_matches_spec(s[m], text_query@, tag_sets@) && #[trigger] ancestor(s, x, m);
                            lemma_ancestor_below(s, x, m);
                        }
                        if ancestor(s, x, i as int) {
                            lemma_ancestor_below(s, x, i as int);
                        }
                    } else {
                        if ancestor(s, x, i as int) {
                            assert(node_matches_spec(s[i as int], text_query@, tag_sets@));
                        }
                        if exists|m: int| 0 <= m < i + 1 && node_matches_spec(s[m], text_query@, tag_sets@) && #[trigger] ancestor(s, x, m) {
                            let m = choose|m: int| 0 <= m < i + 1 && node_matches_spec(s[m], text_query@, tag_sets@) && #[trigger] ancestor(s, x, m);
                            if m < i {
                                assert(start[x]);
                            }
                        }
                    }
                }
                assert forall|x: int| i + 1 <= x < n implies #[trigger] keep@[x] == node_matches_spec(s[x], text_query@, tag_sets@) by {
                    if ancestor(s, x, i as int) {
                        lemma_ancestor_below(s, x, i as int);
                    }
                }
                assert forall|x: int, y: int| 0 <= y < i + 1 && keep@[y] && #[trigger] ancestor(s, x, y) implies #[trigger] keep@[x] by {
                    lemma_ancestor_below(s, x, y);
                    if y < i {
                        if !start[y] {
                            assert(ancestor(s, y, i as int));
                            lemma_ancestor_trans(s, x, y, i as int);
                        }
                    }
                }
            }
        } else {
            proof {
                assert forall|x: int|
                    0 <= x < i + 1 implies (#[trigger] keep@[x] == (node_matches_spec(s[x], text_query@, tag_sets@)
                        || exists|m: int| 0 <= m < i + 1 && node_matches_spec(s[m], text_query@, tag_sets@) && #[trigger] ancestor(s, x, m))) by {
                    if exists|m: int| 0 <= m < i + 1 && node_matches_spec(s[m], text_query@, tag_sets@) && #[trigger] ancestor(s, x, m) {
                        let m = choose|m: int| 0 <= m < i + 1 && node_matches_spec(s[m], text_query@, tag_sets@) && #[trigger] ancestor(s, x, m);
                        lemma_ancestor_below(s, x, m);
                    }
                }
            }
        }
        i = i + 1;
    }
    keep
}


// ---------------------------------------------------------------------------
// Directory tag aggregation
// ---------------------------------------------------------------------------

/// The index just past the last node that the aggregation for directory `i`
/// looks at, scanning from `j`: the scan stops after the first node beyond
/// `i + 1` that is not deeper than `i`.
pub open spec fn flag_scan_stop(s: Seq<NodeView>, i: int, j: int) -> int
    decreases s.len() - j,
{
    if j >= s.len() {
        s.len() as int
    } else if s[j].depth <= s[i].depth && j > i + 1 {
        j + 1
    } else {
        flag_scan_stop(s, i, j + 1)
    }
}

/// The union of the tags of the direct children of `i` among `i+1 .. k`.
pub open spec fn child_flags(s: Seq<NodeView>, i: int, k: int) -> u8
    decreases k - i,
{
    if k <= i + 1 {
        0u8
    } else {
        let a = child_flags(s, i, k - 1);
        if s[k - 1].parent_idx == Some(i as usize) {
            a | s[k - 1].flags
        } else {
            a
        }
    }
}

/// Directory `i` carries exactly the union of its children's tags.
pub open spec fn dir_flags_derived(s: Seq<NodeView>, i: int) -> bool {
    s[i].flags == child_flags(s, i, flag_scan_stop(s, i, i + 1))
}

/// `b` is `a` with at most its tags changed.
pub open spec fn same_but_flags(a: NodeView, b: NodeView) -> bool {
    &&& a.name == b.name
    &&& a.path == b.path
    &&& a.is_dir == b.is_dir
    &&& a.depth == b.depth
    &&& a.expanded == b.expanded
    &&& a.child_count == b.child_count
    &&& a.parent_idx == b.parent_idx
    &&& a.scope == b.scope
}

/// The nodes after `i` have the same depth, parent and tags in both trees.
pub open spec fn agree_beyond(s1: Seq<NodeView>, s2: Seq<NodeView>, i: int) -> bool {
    forall|m: int|
        i < m < s1.len() ==> s1[m].depth == #[trigger] s2[m].depth && s1[m].parent_idx == s2[m].parent_idx
            && s1[m].flags == s2[m].flags
}

proof fn lemma_scan_stop_frame(s1: Seq<NodeView>, s2: Seq<NodeView>, i: int, j: int)
    requires
        s1.len() == s2.len(),
        0 <= i < j,
        s1[i].depth == s2[i].depth,
        agree_beyond(s1, s2, i),
    ensures
        flag_scan_stop(s1, i, j) == flag_scan_stop(s2, i, j),
    decreases s1.len() - j,
{
    if j < s1.len() {
        assert(s1[j].depth == s2[j].depth);
        lemma_scan_stop_frame(s1, s2, i, j + 1);
    }
}

proof fn lemma_scan_stop_bounds(s: Seq<NodeView>, i: int, j: int)
    requires
        0 <= i < j,
    ensures
        flag_scan_stop(s, i, j) <= s.len() || flag_scan_stop(s, i, j) == j,
        j <= s.len() ==> j <= flag_scan_stop(s, i, j) <= s.len(),
    decreases s.len() - j,
{
    if j < s.len() {
        lemma_scan_stop_bounds(s, i, j + 1);
    }
}

proof fn lemma_child_flags_frame(s1: Seq<NodeView>, s2: Seq<NodeView>, i: int, k: int)
    requires
        s1.len() == s2.len(),
        0 <= i < s1.len(),
        k <= s1.len(),
        agree_beyond(s1, s2, i),
    ensures
        child_flags(s1, i, k) == child_flags(s2, i, k),
    decreases k - i,
{
    if k > i + 1 {
        lemma_child_flags_frame(s1, s2, i, k - 1);
        assert(s1[k - 1].depth == s2[k - 1].depth);
    }
}

/// What deriving the directory tags makes of `s`: `a` changes only tags,
/// keeps the files' tags, and gives each directory the union of its
/// children's.
pub open spec fn dir_flags_from(s: Seq<NodeView>, a: Seq<NodeView>) -> bool {
    &&& a.len() == s.len()
    &&& forall|i: int| 0 <= i < a.len() ==> same_but_flags(#[trigger] s[i], a[i])
    &&& forall|i: int| 0 <= i < a.len() && !(#[trigger] s[i]).is_dir ==> a[i].flags == s[i].flags
    &&& forall|i: int| 0 <= i < a.len() && (#[trigger] s[i]).is_dir ==> dir_flags_derived(a, i)
}

/// Recompute each directory's tags as the union of its direct children's
/// tags, deepest first, so that a directory shows the tags found below it
/// and drops a tag once no child carries it.
pub fn derive_dir_flags(nodes: &mut Vec<TreeNode>)
    ensures
        final(nodes)@.len() == old(nodes)@.len(),
        forall|i: int| 0 <= i < final(nodes)@.len() ==> same_but_flags(#[trigger] old(nodes)@[i]@, final(nodes)@[i]@),
        forall|i: int| 0 <= i < final(nodes)@.len() && !old(nodes)@[i].is_dir ==> #[trigger] final(nodes)@[i].flags == old(nodes)@[i].flags,
        forall|i: int| 0 <= i < final(nodes)@.len() && old(nodes)@[i].is_dir ==> #[trigger] dir_flags_derived(node_views(final(nodes)@), i),
        dir_flags_from(node_views(old(nodes)@), node_views(final(nodes)@)),
{
    let len = nodes.len();
    let mut i: usize = len;
    while i > 0
        invariant
            i <= len,
            nodes@.len() == len,
            len == old(nodes)@.len(),
            forall|k: int| 0 <= k < len ==> same_but_flags(#[trigger] old(nodes)@[k]@, nodes@[k]@),
            forall|k: int| 0 <= k < i ==> #[trigger] nodes@[k]@ == old(nodes)@[k]@,
            forall|k: int| 0 <= k < len && !old(nodes)@[k].is_dir ==> #[trigger] nodes@[k].flags == old(nodes)@[k].flags,
            forall|k: int| i <= k < len && old(nodes)@[k].is_dir ==> #[trigger] dir_flags_derived(node_views(nodes@), k),
        decreases i,
    {
        i = i - 1;
        let ghost before = node_views(nodes@);
        if nodes[i].is_dir {
            let d = nodes[i].depth;
            let mut agg: u8 = 0;
            let mut j: usize = i + 1;
            let mut done = false;
            proof {
                assert(before[i as int] == nodes@[i as int]@);
            }
            while j < len && !done
                invariant
                    i < j <= len,
                    nodes@.len() == len,
                    before == node_views(nodes@),
                    d == before[i as int].depth,
                    agg == child_flags(before, i as int, j as int),
                    !done ==> flag_scan_stop(before, i as int, i + 1) == flag_scan_stop(before, i as int, j as int),
                    done ==> flag_scan_stop(before, i as int, i + 1) == j,
                decreases len - j, !done as int,
            {
                proof {
                    assert(before[j as int] == nodes@[j as int]@);
                }
                let is_child = match nodes[j].parent_idx {
                    Some(p) => p == i,
                    None => false,
                };
                if is_child {
                    agg = agg | nodes[j].flags;
                }
                if nodes[j].depth <= d && j > i + 1 {
                    done = true;
                }
                j = j + 1;
            }
            proof {
                if !done {
                    assert(flag_scan_stop(before, i as int, j as int) == len);
                }
            }
            nodes[i].flags = agg;
            proof {
                let after = node_views(nodes@);
                assert forall|k: int| 0 <= k < len && k != i implies #[trigger] after[k] == before[k] by {}
                assert(agree_beyond(before, after, i as int));
                lemma_scan_stop_frame(before, after, i as int, i + 1);
                lemma_scan_stop_bounds(before, i as int, i + 1);
                lemma_child_flags_frame(before, after, i as int, j as int);
                assert forall|k: int| i <= k < len && old(nodes)@[k].is_dir implies #[trigger] dir_flags_derived(after, k) by {
                    if k > i {
                        assert(dir_flags_derived(before, k));
                        assert(agree_beyond(before, after, k));
                        lemma_scan_stop_frame(before, after, k, k + 1);
                        lemma_scan_stop_bounds(before, k, k + 1);
                        lemma_child_flags_frame(before, after, k, flag_scan_stop(before, k, k + 1));
                        assert(after[k] == before[k]);
                    }
                }
            }
        }
    }
}


// ---------------------------------------------------------------------------
// Filtered view
// ---------------------------------------------------------------------------

/// The nodes a filter keeps, as a predicate on node indices.
pub open spec fn node_keep_pred(s: Seq<NodeView>, tq: Seq<char>, ts: Seq<u8>) -> spec_fn(usize) -> bool {
    |i: usize| node_kept(s, tq, ts, i as int)
}

/// The visible nodes under a filter: all visible nodes without a filter, or
/// the visible nodes the filter keeps.
pub open spec fn tree_visible_filtered(s: Seq<NodeView>, search: Seq<char>) -> Seq<usize> {
    let (tq, ts) = filter_sets(search);
    if tq.len() == 0 && ts.len() == 0 {
        visible_nodes_upto(s, s.len() as int)
    } else {
        visible_nodes_upto(s, s.len() as int).filter(node_keep_pred(s, tq, ts))
    }
}

/// A text query or a tag set filters the visible nodes: a node is listed
/// exactly when it is visible and the filter keeps it (its name matches and
/// it has the tags, or it is an ancestor of such a node); every listed node
/// is kept.
pub proof fn law_tree_filter_keeps_matches(s: Seq<NodeView>, search: Seq<char>)
    requires
        filter_sets(search).0.len() > 0 || filter_sets(search).1.len() > 0,
    ensures
        forall|k: int| 0 <= k < tree_visible_filtered(s, search).len() ==> node_kept(
            s,
            filter_sets(search).0,
            filter_sets(search).1,
            #[trigger] tree_visible_filtered(s, search)[k] as int,
        ),
        forall|x: usize| #[trigger] tree_visible_filtered(s, search).contains(x) <==> (visible_nodes_upto(s, s.len() as int).contains(x)
            && node_kept(s, filter_sets(search).0, filter_sets(search).1, x as int)),
{
    let (tq, ts) = filter_sets(search);
    let v = visible_nodes_upto(s, s.len() as int);
    let f = node_keep_pred(s, tq, ts);
    let r = v.filter(f);
    v.filter_lemma(f);
    assert forall|x: usize| #[trigger] r.contains(x) implies v.contains(x) && node_kept(s, tq, ts, x as int) by {
        v.lemma_filter_contains_rev(f, x);
        let k = choose|k: int| 0 <= k < r.len() && r[k] == x;
        assert(f(r[k]));
    }
    assert forall|x: usize| v.contains(x) && node_kept(s, tq, ts, x as int) implies #[trigger] r.contains(x) by {
        let k = choose|k: int| 0 <= k < v.len() && v[k] == x;
        assert(f(v[k]));
    }
}

/// An empty filter lists every visible node.
pub proof fn law_tree_no_filter_shows_all(s: Seq<NodeView>, search: Seq<char>)
    requires
        filter_sets(search).0.len() == 0,
        filter_sets(search).1.len() == 0,
    ensures
        tree_visible_filtered(s, search) == visible_nodes_upto(s, s.len() as int),
{
}

proof fn lemma_visible_nodes_bounds(s: Seq<NodeView>, n: int)
    requires
        0 <= n <= s.len(),
    ensures
        forall|k: int| 0 <= k < visible_nodes_upto(s, n).len() ==> #[trigger] visible_nodes_upto(s, n)[k] < n,
    decreases n,
{
    if n > 0 {
        lemma_visible_nodes_bounds(s, n - 1);
        let prev = visible_nodes_upto(s, n - 1);
        let cur = visible_nodes_upto(s, n);
        assert forall|k: int| 0 <= k < cur.len() implies #[trigger] cur[k] < n by {
            if k < prev.len() {
                assert(cur[k] == prev[k]);
            }
        }
    }
}

/// Visible-list builder used by both the render closure and the keyboard handler
/// so cursor positions and rendered rows stay in sync when a filter is active.
pub fn compute_visible_with_filter(nodes: &[TreeNode], search_buffer: &str) -> (r: Vec<usize>)
    requires
        parents_before(node_views(nodes@)),
    ensures
        r@ == tree_visible_filtered(node_views(nodes@), search_buffer@),
{
    let (text_q, tag_sets) = parse_filter_sets(search_buffer);
    let v = get_visible_nodes(nodes);
    if text_q.as_str().is_empty() && tag_sets.len() == 0 {
        return v;
    }
    let keep = compute_node_filter_keep(nodes, text_q.as_str(), tag_sets.as_slice());
    let ghost s = node_views(nodes@);
    let ghost f = node_keep_pred(s, text_q@, tag_sets@);
    proof {
        lemma_visible_nodes_bounds(s, s.len() as int);
    }
    let mut out: Vec<usize> = Vec::new();
    let mut k: usize = 0;
    while k < v.len()
        invariant
            k <= v@.len(),
            v@ == visible_nodes_upto(s, s.len() as int),
            s == node_views(nodes@),
            keep@.len() == s.len(),
            forall|x: int| 0 <= x < keep@.len() ==> #[trigger] keep@[x] == node_kept(s, text_q@, tag_sets@, x),
            f == node_keep_pred(s, text_q@, tag_sets@),
            forall|x: int| 0 <= x < v@.len() ==> #[trigger] v@[x] < s.len(),
            out@ == v@.take(k as int).filter(f),
        decreases v.len() - k,
    {
        proof {
            v@.take(k as int).lemma_filter_push(v@[k as int], f);
            assert(v@.take(k as int).push(v@[k as int]) =~= v@.take(k + 1));
        }
        let idx = v[k];
        if keep[idx] {
            out.push(idx);
        }
        k = k + 1;
    }
    proof {
        assert(v@.take(v@.len() as int) =~= v@);
    }
    out
}

/// Expand every directory the filter keeps, so that matches inside
/// collapsed directories come into view.
pub fn expand_filter_matches(nodes: &mut Vec<TreeNode>, search_buffer: &str)
    requires
        parents_before(node_views(old(nodes)@)),
    ensures
        final(nodes)@.len() == old(nodes)@.len(),
        forall|i: int|
            0 <= i < final(nodes)@.len() ==> #[trigger] final(nodes)@[i]@ == (NodeView {
                expanded: old(nodes)@[i].expanded || (old(nodes)@[i].is_dir && node_kept(
                    node_views(old(nodes)@),
                    filter_sets(search_buffer@).0,
                    filter_sets(search_buffer@).1,
                    i,
                )),
                ..old(nodes)@[i]@
            }),
{
    let (text_q, tag_sets) = parse_filter_sets(search_buffer);
    let keep = compute_node_filter_keep(nodes.as_slice(), text_q.as_str(), tag_sets.as_slice());
    let ghost s = node_views(old(nodes)@);
    let n = nodes.len();
    let mut i: usize = 0;
    while i < n
        invariant
            n == nodes@.len(),
            n == old(nodes)@.len(),
            s == node_views(old(nodes)@),
            keep@.len() == n,
            i <= n,
            forall|x: int| 0 <= x < n ==> #[trigger] keep@[x] == node_kept(s, text_q@, tag_sets@, x),
            (text_q@, tag_sets@) == filter_sets(search_buffer@),
            forall|x: int| i <= x < n ==> #[trigger] nodes@[x] == old(nodes)@[x],
            forall|x: int|
                0 <= x < i ==> #[trigger] nodes@[x]@ == (NodeView {
                    expanded: old(nodes)@[x].expanded || (old(nodes)@[x].is_dir && node_kept(s, text_q@, tag_sets@, x)),
                    ..old(nodes)@[x]@
                }),
        decreases n - i,
    {
        if keep[i] && nodes[i].is_dir {
            nodes[i].expanded = true;
        }
        i = i + 1;
    }
}


// ---------------------------------------------------------------------------
// Order of a directory's entries
// ---------------------------------------------------------------------------

/// A directory entry as listed: its name and whether it is a directory.
pub struct DirEntry {
    pub name: String,
    pub is_dir: bool,
}

/// A directory name of the `NN_name` form: two ASCII digits and `_`.
pub open spec fn numbered_dir_name(s: Seq<char>) -> bool {
    s.len() >= 3 && is_digit(s[0]) && is_digit(s[1]) && s[2] == '_'
}

/// The name ends in `.md`.
pub open spec fn is_markdown_name(s: Seq<char>) -> bool {
    s.len() >= 3 && s[s.len() - 3] == '.' && s[s.len() - 2] == 'm' && s[s.len() - 1] == 'd'
}

/// Where an entry goes in the tree: numbered directories (0), then other
/// directories (1), then markdown files (2); anything else (3) is left out.
pub open spec fn entry_rank(name: Seq<char>, is_dir: bool) -> u8 {
    if is_dir {
        if numbered_dir_name(name) {
            0
        } else {
            1
        }
    } else if is_markdown_name(name) {
        2
    } else {
        3
    }
}

/// The ranks of a listing.
pub open spec fn entry_ranks(es: Seq<DirEntry>) -> Seq<u8> {
    es.map_values(|e: DirEntry| entry_rank(e.name@, e.is_dir))
}

/// The names of a listing.
pub open spec fn entry_names(es: Seq<DirEntry>) -> Seq<Seq<char>> {
    es.map_values(|e: DirEntry| e.name@)
}

/// The entries that the tree shows.
pub open spec fn entry_shown(es: Seq<DirEntry>) -> Seq<bool> {
    es.map_values(|e: DirEntry| entry_rank(e.name@, e.is_dir) < 3)
}

/// The order in which a directory's entries appear in the tree: numbered
/// directories by name, then the other directories by name, then the
/// markdown files by name; other files are left out.
pub fn order_entries(entries: &[DirEntry]) -> (r: Vec<usize>)
    ensures
        picks_exactly(r@, entry_shown(entries@)),
        sorted_by_key(r@, entry_ranks(entries@), entry_names(entries@)),
{
    let n = entries.len();
    let mut ranks: Vec<u8> = Vec::new();
    let mut names: Vec<String> = Vec::new();
    let mut pick: Vec<bool> = Vec::new();
    let mut i: usize = 0;
    while i < n
        invariant
            n == entries@.len(),
            i <= n,
            ranks@ == entry_ranks(entries@).take(i as int),
            names@.len() == i,
            forall|k: int| 0 <= k < i ==> (#[trigger] names@[k])@ == entries@[k].name@,
            pick@ == entry_shown(entries@).take(i as int),
        decreases n - i,
    {
        let name = chars_of(entries[i].name.as_str());
        let numbered = name.len() >= 3 && '0' <= name[0] && name[0] <= '9' && '0' <= name[1] && name[1] <= '9'
            && name[2] == '_';
        let markdown = name.len() >= 3 && name[name.len() - 3] == '.' && name[name.len() - 2] == 'm'
            && name[name.len() - 1] == 'd';
        let rank: u8 = if entries[i].is_dir {
            if numbered {
                0
            } else {
                1
            }
        } else if markdown {
            2
        } else {
            3
        };
        ranks.push(rank);
        names.push(string_of(name.as_slice()));
        pick.push(rank < 3);
        proof {
            assert(ranks@ =~= entry_ranks(entries@).take(i + 1));
            assert(pick@ =~= entry_shown(entries@).take(i + 1));
        }
        i = i + 1;
    }
    proof {
        assert(ranks@ =~= entry_ranks(entries@));
        assert(pick@ =~= entry_shown(entries@));
        assert(string_views(names@) =~= entry_names(entries@));
    }
    sort_order(ranks.as_slice(), names.as_slice(), pick.as_slice())
}

// ---------------------------------------------------------------------------
// The `.tags` file
// ---------------------------------------------------------------------------

/// The value of a string of ASCII digits.
pub open spec fn digits_value(s: Seq<char>) -> int
    decreases s.len(),
{
    if s.len() == 0 {
        0
    } else {
        digits_value(s.drop_last()) * 10 + digit_value(s.last())
    }
}

/// `u8::from_str`: an optional `+`, then one or more ASCII digits whose
/// value is at most 255.
pub open spec fn parse_u8_spec(s: Seq<char>) -> Option<u8> {
    let d = if s.len() > 0 && s[0] == '+' {
        s.drop_first()
    } else {
        s
    };
    if d.len() > 0 && all_digits(d) && digits_value(d) <= 255 {
        Some(digits_value(d) as u8)
    } else {
        None
    }
}

/// Parse a decimal `u8` the way `u8::from_str` does.
pub fn parse_u8(s: &[char]) -> (r: Option<u8>)
    ensures
        r == parse_u8_spec(s@),
{
    let start: usize = if s.len() > 0 && s[0] == '+' {
        1
    } else {
        0
    };
    let ghost d = s@.skip(start as int);
    proof {
        if start == 1 {
            assert(d =~= s@.drop_first());
        } else {
            assert(d =~= s@);
        }
    }
    if start >= s.len() {
        return None;
    }
    let mut val: u32 = 0;
    let mut i: usize = start;
    while i < s.len()
        invariant
            start <= i <= s@.len(),
            d == s@.skip(start as int),
            d == (if s@.len() > 0 && s@[0] == '+' {
                s@.drop_first()
            } else {
                s@
            }),
            all_digits(s@.subrange(start as int, i as int)),
            val as int == (if digits_value(s@.subrange(start as int, i as int)) < 256 {
                digits_value(s@.subrange(start as int, i as int))
            } else {
                256
            }),
        decreases s.len() - i,
    {
        let c = s[i];
        if !('0' <= c && c <= '9') {
            proof {
                assert(d[i - start] == c);
            }
            return None;
        }
        let dv = (c as u32) - 48;
        proof {
            let pre = s@.subrange(start as int, i as int);
            let nxt = s@.subrange(start as int, i + 1);
            assert(nxt.drop_last() =~= pre);
            assert(nxt.last() == c);
            assert(digit_value(c) == dv);
        }
        val = if val * 10 + dv > 256 {
            256
        } else {
            val * 10 + dv
        };
        i = i + 1;
    }
    proof {
        assert(s@.subrange(start as int, s@.len() as int) =~= d);
    }
    if val <= 255 {
        Some(val as u8)
    } else {
        None
    }
}

/// A line `name:flags` of the `.tags` file: the name before the first `:`
/// and the tags after it, blanks around them ignored.
pub open spec fn tag_line(l: Seq<char>) -> Option<(Seq<char>, u8)> {
    match split_once(l, ':') {
        Some((name, rest)) => match parse_u8_spec(trim(rest)) {
            Some(f) => Some((name, f)),
            None => None,
        },
        None => None,
    }
}

/// The entries of a `.tags` file, in file order; lines that do not parse
/// are skipped.
pub open spec fn tag_entries(ls: Seq<Seq<char>>) -> Seq<(Seq<char>, u8)>
    decreases ls.len(),
{
    if ls.len() == 0 {
        Seq::empty()
    } else {
        let prev = tag_entries(ls.drop_last());
        match tag_line(ls.last()) {
            Some(e) => prev.push(e),
            None => prev,
        }
    }
}

/// The tags recorded for `name`: the last entry for it wins.
pub open spec fn tag_lookup(es: Seq<(Seq<char>, u8)>, name: Seq<char>) -> Option<u8>
    decreases es.len(),
{
    if es.len() == 0 {
        None
    } else if es.last().0 == name {
        Some(es.last().1)
    } else {
        tag_lookup(es.drop_last(), name)
    }
}

/// The views of tag entries.
pub open spec fn tag_views(v: Seq<(String, u8)>) -> Seq<(Seq<char>, u8)> {
    v.map_values(|e: (String, u8)| (e.0@, e.1))
}

/// Read the entries of a `.tags` file.
pub fn parse_tags(content: &str) -> (r: Vec<(String, u8)>)
    ensures
        tag_views(r@) == tag_entries(lines(content@)),
{
    let c = chars_of(content);
    let ls = split_lines(c.as_slice());
    let mut out: Vec<(String, u8)> = Vec::new();
    let mut i: usize = 0;
    while i < ls.len()
        invariant
            i <= ls@.len(),
            views(ls@) == lines(content@),
            tag_views(out@) == tag_entries(views(ls@).take(i as int)),
        decreases ls.len() - i,
    {
        proof {
            assert(views(ls@).take(i + 1).drop_last() =~= views(ls@).take(i as int));
            assert(views(ls@).take(i + 1).last() == ls@[i as int]@);
        }
        match split_once_chars(ls[i].as_slice(), ':') {
            Some((name, rest)) => {
                let t = trim_chars(rest.as_slice());
                match parse_u8(t.as_slice()) {
                    Some(f) => {
                        let ghost before = out@;
                        out.push((string_of(name.as_slice()), f));
                        proof {
                            assert(tag_views(out@) =~= tag_views(before).push((name@, f)));
                        }
                    },
                    None => {},
                }
            },
            None => {},
        }
        i = i + 1;
    }
    proof {
        assert(views(ls@).take(ls@.len() as int) =~= views(ls@));
    }
    out
}

/// The tags of `name` in a parsed `.tags` file, if any.
pub fn lookup_tags(entries: &[(String, u8)], name: &str) -> (r: Option<u8>)
    ensures
        r == tag_lookup(tag_views(entries@), name@),
{
    let target = chars_of(name);
    let mut i: usize = entries.len();
    proof {
        assert(tag_views(entries@).take(i as int) =~= tag_views(entries@));
    }
    while i > 0
        invariant
            i <= entries@.len(),
            target@ == name@,
            tag_lookup(tag_views(entries@), name@) == tag_lookup(tag_views(entries@).take(i as int), name@),
        decreases i,
    {
        proof {
            assert(tag_views(entries@).take(i as int).drop_last() =~= tag_views(entries@).take(i - 1));
            assert(tag_views(entries@)[i - 1] == (entries@[i - 1].0@, entries@[i - 1].1));
            assert(tag_views(entries@).take(i as int).last() == (entries@[i - 1].0@, entries@[i - 1].1));
        }
        let k = chars_of(entries[i - 1].0.as_str());
        let same = eq_chars(k.as_slice(), target.as_slice());
        proof {
            let t = tag_views(entries@).take(i as int);
            assert(t.len() > 0);
            assert(same == (t.last().0 == name@));
            assert(tag_lookup(t, name@) == if t.last().0 == name@ {
                Some(t.last().1)
            } else {
                tag_lookup(t.drop_last(), name@)
            });
        }
        if same {
            return Some(entries[i - 1].1);
        }
        i = i - 1;
    }
    None
}

/// Two character slices are equal.
pub fn eq_chars(a: &[char], b: &[char]) -> (r: bool)
    ensures
        r == (a@ == b@),
{
    if a.len() != b.len() {
        return false;
    }
    let mut i: usize = 0;
    while i < a.len()
        invariant
            a@.len() == b@.len(),
            i <= a@.len(),
            a@.take(i as int) == b@.take(i as int),
        decreases a.len() - i,
    {
        if a[i] != b[i] {
            return false;
        }
        proof {
            assert(a@.take(i + 1) =~= a@.take(i as int).push(a@[i as int]));
            assert(b@.take(i + 1) =~= b@.take(i as int).push(b@[i as int]));
        }
        i = i + 1;
    }
    proof {
        assert(a@.take(i as int) =~= a@);
        assert(b@.take(i as int) =~= b@);
    }
    true
}

/// The decimal digits of a byte, without leading zeros.
pub open spec fn decimal_u8(n: u8) -> Seq<char> {
    if n < 10 {
        seq![(n + 48) as char]
    } else if n < 100 {
        seq![((n / 10) + 48) as char, ((n % 10) + 48) as char]
    } else {
        seq![((n / 100) + 48) as char, (((n / 10) % 10) + 48) as char, ((n % 10) + 48) as char]
    }
}

/// Write a byte in decimal.
pub fn decimal_u8_exec(n: u8) -> (r: Vec<char>)
    ensures
        r@ == decimal_u8(n),
{
    let mut v: Vec<char> = Vec::new();
    if n >= 100 {
        v.push(((n / 100) + 48) as char);
    }
    if n >= 10 {
        v.push((((n / 10) % 10) + 48) as char);
    }
    v.push(((n % 10) + 48) as char);
    proof {
        if n < 10 {
            assert(v@ =~= decimal_u8(n));
        } else if n < 100 {
            assert(n / 10 < 10);
            assert(v@ =~= decimal_u8(n));
        } else {
            assert(v@ =~= decimal_u8(n));
        }
    }
    v
}

/// The `.tags` lines of the entries listed by `order`, one `name:flags` line each.
pub open spec fn tag_lines_text(es: Seq<(Seq<char>, u8)>, order: Seq<usize>) -> Seq<char>
    decreases order.len(),
{
    if order.len() == 0 {
        Seq::empty()
    } else {
        let e = es[order.last() as int];
        tag_lines_text(es, order.drop_last()) + e.0 + seq![':'] + decimal_u8(e.1) + seq!['\n']
    }
}

/// The entries with tags.
pub open spec fn tagged(es: Seq<(Seq<char>, u8)>) -> Seq<bool> {
    es.map_values(|e: (Seq<char>, u8)| e.1 != 0)
}

/// The names of tag entries.
pub open spec fn tag_names(es: Seq<(Seq<char>, u8)>) -> Seq<Seq<char>> {
    es.map_values(|e: (Seq<char>, u8)| e.0)
}

/// The text of a `.tags` file: the entries with tags, sorted by name, one
/// `name:flags` line each.  Returns the text and the order of the entries
/// written.
pub fn tags_file_text(entries: &[(String, u8)]) -> (r: (String, Vec<usize>))
    ensures
        picks_exactly(r.1@, tagged(tag_views(entries@))),
        sorted_by_key(r.1@, Seq::new(entries@.len(), |i: int| 0u8), tag_names(tag_views(entries@))),
        r.0@ == tag_lines_text(tag_views(entries@), r.1@),
{
    let n = entries.len();
    let mut ranks: Vec<u8> = Vec::new();
    let mut names: Vec<String> = Vec::new();
    let mut pick: Vec<bool> = Vec::new();
    let ghost es = tag_views(entries@);
    let mut i: usize = 0;
    while i < n
        invariant
            n == entries@.len(),
            es == tag_views(entries@),
            i <= n,
            ranks@ =~= Seq::new(i as nat, |k: int| 0u8),
            names@.len() == i,
            forall|k: int| 0 <= k < i ==> (#[trigger] names@[k])@ == entries@[k].0@,
            pick@ =~= tagged(es).take(i as int),
        decreases n - i,
    {
        let c = chars_of(entries[i].0.as_str());
        ranks.push(0);
        names.push(string_of(c.as_slice()));
        pick.push(entries[i].1 != 0);
        i = i + 1;
    }
    proof {
        assert(string_views(names@) =~= tag_names(es));
        assert(pick@ =~= tagged(es));
    }
    let order = sort_order(ranks.as_slice(), names.as_slice(), pick.as_slice());
    let mut out: Vec<char> = Vec::new();
    let mut k: usize = 0;
    while k < order.len()
        invariant
            n == entries@.len(),
            es == tag_views(entries@),
            k <= order@.len(),
            forall|m: int| 0 <= m < order@.len() ==> (#[trigger] order@[m] as int) < n,
            out@ == tag_lines_text(es, order@.take(k as int)),
        decreases order.len() - k,
    {
        proof {
            assert(order@.take(k + 1).drop_last() =~= order@.take(k as int));
            assert(order@[k as int] < n);
        }
        let e = &entries[order[k]];
        let name = chars_of(e.0.as_str());
        append_chars(&mut out, name.as_slice());
        out.push(':');
        let d = decimal_u8_exec(e.1);
        append_chars(&mut out, d.as_slice());
        out.push('\n');
        proof {
            assert(es[order@[k as int] as int] == (e.0@, e.1));
            assert(out@ =~= tag_lines_text(es, order@.take(k + 1)));
        }
        k = k + 1;
    }
    proof {
        assert(order@.take(order@.len() as int) =~= order@);
    }
    (string_of(out.as_slice()), order)
}


// ---------------------------------------------------------------------------
// Tags on the tree
// ---------------------------------------------------------------------------

/// The tags a node takes from a `.tags` file read in `root`: the recorded
/// tags of its path relative to the root, or its own when none are recorded.
pub open spec fn tags_from_file(tags: Seq<(Seq<char>, u8)>, path: Seq<char>, root: Seq<char>, own: u8) -> u8 {
    match tag_lookup(tags, relative_display(path, root)) {
        Some(f) => f,
        None => own,
    }
}

/// Give each node the tags the `.tags` file of `root` records for it.
pub fn apply_tags(nodes: &mut Vec<TreeNode>, root: &str, tags: &[(String, u8)])
    ensures
        final(nodes)@.len() == old(nodes)@.len(),
        forall|i: int|
            0 <= i < final(nodes)@.len() ==> #[trigger] final(nodes)@[i]@ == (NodeView {
                flags: tags_from_file(tag_views(tags@), old(nodes)@[i].path@, root@, old(nodes)@[i].flags),
                ..old(nodes)@[i]@
            }),
{
    let n = nodes.len();
    let mut i: usize = 0;
    while i < n
        invariant
            n == nodes@.len(),
            n == old(nodes)@.len(),
            i <= n,
            forall|x: int| i <= x < n ==> #[trigger] nodes@[x] == old(nodes)@[x],
            forall|x: int|
                0 <= x < i ==> #[trigger] nodes@[x]@ == (NodeView {
                    flags: tags_from_file(tag_views(tags@), old(nodes)@[x].path@, root@, old(nodes)@[x].flags),
                    ..old(nodes)@[x]@
                }),
        decreases n - i,
    {
        let rel = display_relative(nodes[i].path.as_str(), root);
        match lookup_tags(tags, rel.as_str()) {
            Some(f) => {
                nodes[i].flags = f;
            },
            None => {},
        }
        i = i + 1;
    }
}

/// Give the top-level nodes (only the directories among them, if
/// `dirs_only`) a scope icon.
pub fn mark_scope(nodes: &mut Vec<TreeNode>, scope: Scope, dirs_only: bool)
    ensures
        final(nodes)@.len() == old(nodes)@.len(),
        forall|i: int|
            0 <= i < final(nodes)@.len() ==> #[trigger] final(nodes)@[i]@ == (NodeView {
                scope: if old(nodes)@[i].depth == 0 && (old(nodes)@[i].is_dir || !dirs_only) {
                    scope
                } else {
                    old(nodes)@[i].scope
                },
                ..old(nodes)@[i]@
            }),
{
    let n = nodes.len();
    let mut i: usize = 0;
    while i < n
        invariant
            n == nodes@.len(),
            n == old(nodes)@.len(),
            i <= n,
            forall|x: int| i <= x < n ==> #[trigger] nodes@[x] == old(nodes)@[x],
            forall|x: int|
                0 <= x < i ==> #[trigger] nodes@[x]@ == (NodeView {
                    scope: if old(nodes)@[x].depth == 0 && (old(nodes)@[x].is_dir || !dirs_only) {
                        scope
                    } else {
                        old(nodes)@[x].scope
                    },
                    ..old(nodes)@[x]@
                }),
        decreases n - i,
    {
        if nodes[i].depth == 0 && (nodes[i].is_dir || !dirs_only) {
            nodes[i].scope = scope;
        }
        i = i + 1;
    }
}

/// `p` moved by `offset` places.
pub open spec fn shifted(p: Option<usize>, offset: int) -> Option<usize> {
    match p {
        Some(q) => Some((q + offset) as usize),
        None => None,
    }
}

/// Copy a node, parent link and depth given.
fn node_with(n: &TreeNode, depth: usize, parent_idx: Option<usize>) -> (r: TreeNode)
    ensures
        r@ == (NodeView { depth, parent_idx, ..n@ }),
{
    TreeNode {
        name: string_of(chars_of(n.name.as_str()).as_slice()),
        path: string_of(chars_of(n.path.as_str()).as_slice()),
        is_dir: n.is_dir,
        depth,
        expanded: n.expanded,
        child_count: n.child_count,
        parent_idx,
        flags: n.flags,
        scope: n.scope,
    }
}

/// Append a second tree after the nodes, moving its parent links by the
/// number of nodes already there.
pub fn append_tree(nodes: &mut Vec<TreeNode>, sub: &[TreeNode])
    requires
        parents_before(node_views(sub@)),
        old(nodes)@.len() + sub@.len() <= usize::MAX,
    ensures
        final(nodes)@.len() == old(nodes)@.len() + sub@.len(),
        forall|i: int| 0 <= i < old(nodes)@.len() ==> #[trigger] final(nodes)@[i] == old(nodes)@[i],
        forall|k: int|
            0 <= k < sub@.len() ==> #[trigger] final(nodes)@[old(nodes)@.len() + k]@ == (NodeView {
                parent_idx: shifted(sub@[k].parent_idx, old(nodes)@.len() as int),
                ..sub@[k]@
            }),
{
    let offset = nodes.len();
    let mut k: usize = 0;
    while k < sub.len()
        invariant
            offset == old(nodes)@.len(),
            offset + sub@.len() <= usize::MAX,
            parents_before(node_views(sub@)),
            k <= sub@.len(),
            nodes@.len() == offset + k,
            forall|i: int| 0 <= i < offset ==> #[trigger] nodes@[i] == old(nodes)@[i],
            forall|j: int|
                0 <= j < k ==> #[trigger] nodes@[offset + j]@ == (NodeView {
                    parent_idx: shifted(sub@[j].parent_idx, offset as int),
                    ..sub@[j]@
                }),
        decreases sub.len() - k,
    {
        proof {
            assert(node_views(sub@)[k as int] == sub@[k as int]@);
        }
        let p = match sub[k].parent_idx {
            Some(q) => Some(q + offset),
            None => None,
        };
        let node = node_with(&sub[k], sub[k].depth, p);
        nodes.push(node);
        proof {
            assert(nodes@[offset + k as int] == node);
        }
        k = k + 1;
    }
}

/// Put a second tree under a new top-level directory appended after the
/// nodes: the directory is named `name`, stands for `path`, counts
/// `child_count` notes and shows the public scope icon; the tree's nodes
/// follow it one level deeper, its top-level nodes becoming the
/// directory's children.
pub fn graft_public(nodes: &mut Vec<TreeNode>, name: &str, path: &str, child_count: usize, sub: &[TreeNode])
    requires
        parents_before(node_views(sub@)),
        old(nodes)@.len() + sub@.len() + 1 <= usize::MAX,
        forall|k: int| 0 <= k < sub@.len() ==> (#[trigger] sub@[k]).depth < usize::MAX,
    ensures
        final(nodes)@.len() == old(nodes)@.len() + 1 + sub@.len(),
        forall|i: int| 0 <= i < old(nodes)@.len() ==> #[trigger] final(nodes)@[i] == old(nodes)@[i],
        final(nodes)@[old(nodes)@.len() as int]@ == (NodeView {
            name: name@,
            path: path@,
            is_dir: true,
            depth: 0,
            expanded: false,
            child_count,
            parent_idx: None,
            flags: 0,
            scope: Scope::Public,
        }),
        forall|k: int|
            0 <= k < sub@.len() ==> #[trigger] final(nodes)@[old(nodes)@.len() + 1 + k]@ == (NodeView {
                depth: (sub@[k].depth + 1) as usize,
                parent_idx: match sub@[k].parent_idx {
                    Some(p) => Some((p + old(nodes)@.len() + 1) as usize),
                    None => Some(old(nodes)@.len() as usize),
                },
                ..sub@[k]@
            }),
{
    let wrapper_idx = nodes.len();
    nodes.push(TreeNode {
        name: string_of(chars_of(name).as_slice()),
        path: string_of(chars_of(path).as_slice()),
        is_dir: true,
        depth: 0,
        expanded: false,
        child_count,
        parent_idx: None,
        flags: 0,
        scope: Scope::Public,
    });
    let offset = nodes.len();
    let mut k: usize = 0;
    while k < sub.len()
        invariant
            wrapper_idx == old(nodes)@.len(),
            offset == wrapper_idx + 1,
            offset + sub@.len() <= usize::MAX,
            parents_before(node_views(sub@)),
            forall|j: int| 0 <= j < sub@.len() ==> (#[trigger] sub@[j]).depth < usize::MAX,
            k <= sub@.len(),
            nodes@.len() == offset + k,
            forall|i: int| 0 <= i < wrapper_idx ==> #[trigger] nodes@[i] == old(nodes)@[i],
            nodes@[wrapper_idx as int]@ == (NodeView {
                name: name@,
                path: path@,
                is_dir: true,
                depth: 0,
                expanded: false,
                child_count,
                parent_idx: None,
                flags: 0,
                scope: Scope::Public,
            }),
            forall|j: int|
                0 <= j < k ==> #[trigger] nodes@[offset + j]@ == (NodeView {
                    depth: (sub@[j].depth + 1) as usize,
                    parent_idx: match sub@[j].parent_idx {
                        Some(p) => Some((p + offset) as usize),
                        None => Some(wrapper_idx),
                    },
                    ..sub@[j]@
                }),
        decreases sub.len() - k,
    {
        proof {
            assert(node_views(sub@)[k as int] == sub@[k as int]@);
        }
        let p = match sub[k].parent_idx {
            Some(q) => Some(q + offset),
            None => Some(wrapper_idx),
        };
        let node = node_with(&sub[k], sub[k].depth + 1, p);
        nodes.push(node);
        proof {
            assert(nodes@[offset + k as int] == node);
        }
        k = k + 1;
    }
}

/// The topmost ancestor of node `i` (itself when it has no parent).
pub open spec fn top_ancestor(s: Seq<NodeView>, i: int) -> int
    decreases i,
{
    if 0 <= i < s.len() && s[i].parent_idx is Some && s[i].parent_idx->0 < i {
        top_ancestor(s, s[i].parent_idx->0 as int)
    } else {
        i
    }
}

/// The directory whose `.tags` file records node `i`: the parent directory
/// of the node's topmost ancestor (of the node itself at depth 0), or
/// `root` when that path has no parent.
pub open spec fn tags_root(s: Seq<NodeView>, i: int, root: Seq<char>) -> Seq<char> {
    let top = if s[i].depth == 0 {
        i
    } else {
        top_ancestor(s, i)
    };
    match parent_of(s[top].path) {
        Some(p) => p,
        None => root,
    }
}

/// One tag record to save: the `.tags` directory, the path relative to it,
/// and the tags.
pub struct TagRecord {
    pub root: String,
    pub rel: String,
    pub flags: u8,
}

/// The tag records of the tagged nodes, in node order.
pub open spec fn tag_records(s: Seq<NodeView>, root: Seq<char>) -> Seq<(Seq<char>, Seq<char>, u8)>
    decreases s.len(),
{
    if s.len() == 0 {
        Seq::empty()
    } else {
        let prev = tag_records(s.drop_last(), root);
        let i = s.len() - 1;
        if s[i].flags != 0 {
            let r = tags_root(s, i, root);
            prev.push((r, relative_display(s[i].path, r), s[i].flags))
        } else {
            prev
        }
    }
}

/// The views of tag records.
pub open spec fn record_views(v: Seq<TagRecord>) -> Seq<(Seq<char>, Seq<char>, u8)> {
    v.map_values(|r: TagRecord| (r.root@, r.rel@, r.flags))
}

proof fn lemma_top_ancestor_prefix(s: Seq<NodeView>, n: int, i: int)
    requires
        parents_before(s),
        0 <= i < n <= s.len(),
    ensures
        top_ancestor(s.take(n), i) == top_ancestor(s, i),
        0 <= top_ancestor(s, i) <= i,
    decreases i,
{
    let p = s[i].parent_idx;
    assert(s.take(n)[i] == s[i]);
    if p is Some && p->0 < i {
        lemma_top_ancestor_prefix(s, n, p->0 as int);
    }
}

/// What to save when the tree closes: a record for every tagged node.
pub fn collect_tag_records(nodes: &[TreeNode], root: &str) -> (r: Vec<TagRecord>)
    requires
        parents_before(node_views(nodes@)),
    ensures
        record_views(r@) == tag_records(node_views(nodes@), root@),
{
    let ghost s = node_views(nodes@);
    let mut out: Vec<TagRecord> = Vec::new();
    let mut i: usize = 0;
    while i < nodes.len()
        invariant
            s == node_views(nodes@),
            parents_before(s),
            i <= nodes@.len(),
            record_views(out@) == tag_records(s.take(i as int), root@),
        decreases nodes.len() - i,
    {
        proof {
            assert(s.take(i + 1).drop_last() =~= s.take(i as int));
            assert(s[i as int] == nodes@[i as int]@);
        }
        if nodes[i].flags != 0 {
            let mut top: usize = i;
            if nodes[i].depth != 0 {
                loop
                    invariant
                        s == node_views(nodes@),
                        parents_before(s),
                        top <= i < nodes@.len(),
                        top_ancestor(s, i as int) == top_ancestor(s, top as int),
                    ensures
                        top <= i < nodes@.len(),
                        top_ancestor(s, i as int) == top as int,
                    decreases top,
                {
                    proof {
                        assert(s[top as int] == nodes@[top as int]@);
                    }
                    match nodes[top].parent_idx {
                        Some(p) => {
                            proof {
                                assert(p < top);
                            }
                            top = p;
                        },
                        None => {
                            break;
                        },
                    }
                }
            }
            let r = match parent_path(nodes[top].path.as_str()) {
                Some(p) => p,
                None => string_of(chars_of(root).as_slice()),
            };
            let rel = display_relative(nodes[i].path.as_str(), r.as_str());
            let ghost before = out@;
            out.push(TagRecord { root: r, rel, flags: nodes[i].flags });
            proof {
                lemma_top_ancestor_prefix(s, i + 1, i as int);
                let t = s.take(i + 1);
                assert(t[i as int] == s[i as int]);
                assert(t[top as int] == s[top as int]);
                assert(tags_root(t, i as int, root@) == tags_root(s, i as int, root@));
                assert(record_views(out@) =~= record_views(before).push((r@, rel@, nodes@[i as int].flags)));
            }
        } else {
            proof {
                assert(s.take(i + 1)[i as int] == s[i as int]);
            }
        }
        i = i + 1;
    }
    proof {
        assert(s.take(nodes@.len() as int) =~= s);
    }
    out
}

/// The records of one `.tags` directory, as `.tags` entries.
pub open spec fn records_for_root(rs: Seq<(Seq<char>, Seq<char>, u8)>, root: Seq<char>) -> Seq<(Seq<char>, u8)>
    decreases rs.len(),
{
    if rs.len() == 0 {
        Seq::empty()
    } else {
        let prev = records_for_root(rs.drop_last(), root);
        if rs.last().0 == root {
            prev.push((rs.last().1, rs.last().2))
        } else {
            prev
        }
    }
}

/// The `.tags` entries to write into `root`, in record order.
pub fn tags_for_root(records: &[TagRecord], root: &str) -> (r: Vec<(String, u8)>)
    ensures
        tag_views(r@) == records_for_root(record_views(records@), root@),
{
    let target = chars_of(root);
    let mut out: Vec<(String, u8)> = Vec::new();
    let mut i: usize = 0;
    while i < records.len()
        invariant
            i <= records@.len(),
            target@ == root@,
            tag_views(out@) == records_for_root(record_views(records@).take(i as int), root@),
        decreases records.len() - i,
    {
        proof {
            assert(record_views(records@).take(i + 1).drop_last() =~= record_views(records@).take(i as int));
            assert(record_views(records@).take(i + 1).last() == (records@[i as int].root@, records@[i as int].rel@, records@[i as int].flags));
        }
        let rc = chars_of(records[i].root.as_str());
        if eq_chars(rc.as_slice(), target.as_slice()) {
            let ghost before = out@;
            out.push((string_of(chars_of(records[i].rel.as_str()).as_slice()), records[i].flags));
            proof {
                assert(tag_views(out@) =~= tag_views(before).push((records@[i as int].rel@, records@[i as int].flags)));
            }
        }
        i = i + 1;
    }
    proof {
        assert(record_views(records@).take(records@.len() as int) =~= record_views(records@));
    }
    out
}

/// One of the first `n` records is for `root`.
pub open spec fn root_in(records: Seq<TagRecord>, n: int, root: Seq<char>) -> bool {
    exists|j: int| 0 <= j < n && #[trigger] records[j].root@ == root
}

/// The distinct `.tags` directories of the records, in first-seen order.
pub fn record_roots(records: &[TagRecord]) -> (r: Vec<String>)
    ensures
        string_views(r@).no_duplicates(),
        forall|k: int| 0 <= k < r@.len() ==> root_in(records@, records@.len() as int, #[trigger] r@[k]@),
        forall|j: int| 0 <= j < records@.len() ==> string_views(r@).contains(#[trigger] records@[j].root@),
{
    let mut out: Vec<String> = Vec::new();
    let mut i: usize = 0;
    while i < records.len()
        invariant
            i <= records@.len(),
            string_views(out@).no_duplicates(),
            forall|k: int| 0 <= k < out@.len() ==> root_in(records@, i as int, #[trigger] out@[k]@),
            forall|j: int| 0 <= j < i ==> string_views(out@).contains(#[trigger] records@[j].root@),
        decreases records.len() - i,
    {
        let rc = chars_of(records[i].root.as_str());
        let mut found = false;
        let mut k: usize = 0;
        while k < out.len()
            invariant
                k <= out@.len(),
                i < records@.len(),
                rc@ == records@[i as int].root@,
                found == exists|m: int| 0 <= m < k && out@[m]@ == rc@,
            decreases out.len() - k,
        {
            let oc = chars_of(out[k].as_str());
            if eq_chars(oc.as_slice(), rc.as_slice()) {
                found = true;
            }
            k = k + 1;
        }
        if !found {
            let ghost before = out@;
            out.push(string_of(rc.as_slice()));
            proof {
                assert(string_views(out@) =~= string_views(before).push(rc@));
                assert forall|a: int, b: int| 0 <= a < b < string_views(out@).len() implies string_views(out@)[a] != string_views(out@)[b] by {
                    if b == before.len() {
                        assert(string_views(out@)[a] == before[a]@);
                    }
                }
                assert forall|k2: int| 0 <= k2 < out@.len() implies root_in(records@, i + 1, #[trigger] out@[k2]@) by {
                    if k2 < before.len() {
                        assert(out@[k2] == before[k2]);
                        assert(root_in(records@, i as int, before[k2]@));
                        let j = choose|j: int| 0 <= j < i && #[trigger] records@[j].root@ == before[k2]@;
                        assert(records@[j].root@ == out@[k2]@);
                    } else {
                        assert(out@[k2]@ == records@[i as int].root@);
                    }
                }
                assert forall|j: int| 0 <= j < i + 1 implies string_views(out@).contains(#[trigger] records@[j].root@) by {
                    if j < i {
                        let m = choose|m: int| 0 <= m < before.len() && string_views(before)[m] == records@[j].root@;
                        assert(string_views(out@)[m] == string_views(before)[m]);
                    } else {
                        assert(string_views(out@)[before.len() as int] == rc@);
                    }
                }
            }
        } else {
            proof {
                let m = choose|m: int| 0 <= m < out@.len() && out@[m]@ == rc@;
                assert(string_views(out@)[m] == rc@);
            }
        }
        i = i + 1;
    }
    out
}


// ---------------------------------------------------------------------------
// What the derived tags and the filter depend on
// ---------------------------------------------------------------------------

/// Two trees with the same names, depths, parent links and tags.
pub open spec fn same_shape_and_tags(s1: Seq<NodeView>, s2: Seq<NodeView>) -> bool {
    &&& s1.len() == s2.len()
    &&& forall|m: int|
        0 <= m < s1.len() ==> s1[m].depth == (#[trigger] s2[m]).depth && s1[m].parent_idx == s2[m].parent_idx
            && s1[m].flags == s2[m].flags && s1[m].name == s2[m].name
}

/// Whether a directory's tags are derived does not depend on expansion,
/// paths or scope.
pub proof fn lemma_derived_frame(s1: Seq<NodeView>, s2: Seq<NodeView>, i: int)
    requires
        same_shape_and_tags(s1, s2),
        0 <= i < s1.len(),
    ensures
        dir_flags_derived(s1, i) == dir_flags_derived(s2, i),
{
    assert(agree_beyond(s1, s2, i));
    assert(s1[i].depth == s2[i].depth);
    lemma_scan_stop_frame(s1, s2, i, i + 1);
    lemma_scan_stop_bounds(s1, i, i + 1);
    lemma_child_flags_frame(s1, s2, i, flag_scan_stop(s1, i, i + 1));
}

proof fn lemma_ancestor_frame(s1: Seq<NodeView>, s2: Seq<NodeView>, x: int, m: int)
    requires
        same_shape_and_tags(s1, s2),
    ensures
        ancestor(s1, x, m) == ancestor(s2, x, m),
    decreases m,
{
    if 0 <= m < s1.len() {
        assert(s1[m].parent_idx == s2[m].parent_idx);
        if s1[m].parent_idx is Some && s1[m].parent_idx->0 < m {
            lemma_ancestor_frame(s1, s2, x, s1[m].parent_idx->0 as int);
        }
    }
}

/// What a filter keeps does not depend on expansion, paths or scope.
pub proof fn lemma_kept_frame(s1: Seq<NodeView>, s2: Seq<NodeView>, tq: Seq<char>, ts: Seq<u8>, x: int)
    requires
        same_shape_and_tags(s1, s2),
        0 <= x < s1.len(),
    ensures
        node_kept(s1, tq, ts, x) == node_kept(s2, tq, ts, x),
{
    assert(s1[x].name == s2[x].name && s1[x].flags == s2[x].flags);
    assert(node_matches_spec(s1[x], tq, ts) == node_matches_spec(s2[x], tq, ts));
    if exists|m: int| 0 <= m < s1.len() && node_matches_spec(s1[m], tq, ts) && #[trigger] ancestor(s1, x, m) {
        let m = choose|m: int| 0 <= m < s1.len() && node_matches_spec(s1[m], tq, ts) && #[trigger] ancestor(s1, x, m);
        lemma_ancestor_frame(s1, s2, x, m);
        assert(s1[m].name == s2[m].name && s1[m].flags == s2[m].flags);
        assert(node_matches_spec(s2[m], tq, ts));
    }
    if exists|m: int| 0 <= m < s2.len() && node_matches_spec(s2[m], tq, ts) && #[trigger] ancestor(s2, x, m) {
        let m = choose|m: int| 0 <= m < s2.len() && node_matches_spec(s2[m], tq, ts) && #[trigger] ancestor(s2, x, m);
        lemma_ancestor_frame(s1, s2, x, m);
        assert(s1[m].name == s2[m].name && s1[m].flags == s2[m].flags);
        assert(node_matches_spec(s1[m], tq, ts));
    }
}

// ---------------------------------------------------------------------------
// Reading back a written `.tags` file
// ---------------------------------------------------------------------------

proof fn lemma_decimal_reads_back(n: u8)
    ensures
        decimal_u8(n).len() > 0,
        free_of(decimal_u8(n), '\n'),
        decimal_u8(n)[0] != '+',
        decimal_u8(n).last() != '\r',
        trim(decimal_u8(n)) == decimal_u8(n),
        parse_u8_spec(decimal_u8(n)) == Some(n),
{
    let d = decimal_u8(n);
    assert(all_digits(d));
    assert(d.len() > 0 ==> !crate::text::is_ws(d[0]) && !crate::text::is_ws(d.last()));
    lemma_trim_plain(d);
    assert(digits_value(Seq::<char>::empty()) == 0);
    if n < 10 {
        assert((((n + 48) as char) as int) == n + 48);
        assert(d.drop_last() =~= Seq::<char>::empty());
        assert(digit_value(d.last()) == n);
        assert(digits_value(d) == n);
    } else if n < 100 {
        let c0 = ((n / 10) + 48) as char;
        let c1 = ((n % 10) + 48) as char;
        assert((c0 as int) == n / 10 + 48);
        assert((c1 as int) == n % 10 + 48);
        let d1 = seq![c0];
        assert(d.drop_last() =~= d1);
        assert(d1.drop_last() =~= Seq::<char>::empty());
        assert(digits_value(d1) == n / 10);
        assert(digits_value(d) == (n / 10) * 10 + n % 10);
    } else {
        let c0 = ((n / 100) + 48) as char;
        let c1 = (((n / 10) % 10) + 48) as char;
        let c2 = ((n % 10) + 48) as char;
        assert((c0 as int) == n / 100 + 48);
        assert((c1 as int) == (n / 10) % 10 + 48);
        assert((c2 as int) == n % 10 + 48);
        let d1 = seq![c0];
        let d2 = seq![c0, c1];
        assert(d.drop_last() =~= d2);
        assert(d2.drop_last() =~= d1);
        assert(d1.drop_last() =~= Seq::<char>::empty());
        assert(digits_value(d1) == n / 100);
        assert(digits_value(d2) == (n / 100) * 10 + (n / 10) % 10);
        assert(digits_value(d) == ((n / 100) * 10 + (n / 10) % 10) * 10 + n % 10);
    }
}

/// The `name:flags` line written for an entry, without its line break.
spec fn tag_body(e: (Seq<char>, u8)) -> Seq<char> {
    e.0 + seq![':'] + decimal_u8(e.1)
}

proof fn lemma_tag_lines_state(es: Seq<(Seq<char>, u8)>, order: Seq<usize>)
    requires
        forall|k: int| 0 <= k < order.len() ==> (#[trigger] order[k] as int) < es.len()
            && free_of(es[order[k] as int].0, ':') && free_of(es[order[k] as int].0, '\n'),
    ensures
        lines_state(tag_lines_text(es, order)).1.len() == 0,
        tag_entries(lines_state(tag_lines_text(es, order)).0) == order.map_values(|k: usize| es[k as int]),
    decreases order.len(),
{
    if order.len() == 0 {
        assert(lines_state(Seq::<char>::empty()) == (Seq::<Seq<char>>::empty(), Seq::<char>::empty()));
        assert(order.map_values(|k: usize| es[k as int]) =~= Seq::<(Seq<char>, u8)>::empty());
    } else {
        let t = order.drop_last();
        assert forall|k: int| 0 <= k < t.len() implies (#[trigger] t[k] as int) < es.len()
            && free_of(es[t[k] as int].0, ':') && free_of(es[t[k] as int].0, '\n') by {
            assert(t[k] == order[k]);
        }
        lemma_tag_lines_state(es, t);
        let e = es[order.last() as int];
        assert(order[order.len() - 1] == order.last());
        lemma_decimal_reads_back(e.1);
        let body = tag_body(e);
        assert(free_of(body, '\n')) by {
            assert forall|i: int| 0 <= i < body.len() implies body[i] != '\n' by {
                if i < e.0.len() {
                    assert(body[i] == e.0[i]);
                } else if i > e.0.len() {
                    assert(body[i] == decimal_u8(e.1)[i - e.0.len() - 1]);
                }
            }
        }
        assert(body.last() == decimal_u8(e.1).last());
        let prev = tag_lines_text(es, t);
        assert(tag_lines_text(es, order) =~= prev + body + seq!['\n']);
        lemma_lines_state_line(prev, body);
        lemma_split_once_at(e.0, decimal_u8(e.1), ':');
        assert(tag_line(body) == Some(e));
        let ls = lines_state(prev).0;
        assert(ls.push(body).drop_last() =~= ls);
        assert(order.map_values(|k: usize| es[k as int]).drop_last() =~= t.map_values(|k: usize| es[k as int]));
    }
}

/// Reading a `.tags` file written for entries `es` in the order `order`
/// gives back those entries in that order, for names without `:` or line
/// breaks.
pub proof fn law_tags_file_reload(es: Seq<(Seq<char>, u8)>, order: Seq<usize>)
    requires
        forall|k: int| 0 <= k < order.len() ==> (#[trigger] order[k] as int) < es.len()
            && free_of(es[order[k] as int].0, ':') && free_of(es[order[k] as int].0, '\n'),
    ensures
        tag_entries(lines(tag_lines_text(es, order))) == order.map_values(|k: usize| es[k as int]),
{
    lemma_tag_lines_state(es, order);
}

// ---------------------------------------------------------------------------
// Directory tags are settled
// ---------------------------------------------------------------------------

proof fn lemma_dir_flags_agree(s: Seq<NodeView>, a: Seq<NodeView>, b: Seq<NodeView>, i: int)
    requires
        dir_flags_from(s, a),
        dir_flags_from(s, b),
        0 <= i <= s.len(),
    ensures
        forall|m: int| i <= m < s.len() ==> #[trigger] a[m] == b[m],
    decreases s.len() - i,
{
    if i < s.len() {
        lemma_dir_flags_agree(s, a, b, i + 1);
        assert(same_but_flags(s[i], a[i]) && same_but_flags(s[i], b[i]));
        if s[i].is_dir {
            assert(agree_beyond(a, b, i)) by {
                assert forall|m: int| i < m < a.len() implies a[m].depth == #[trigger] b[m].depth
                    && a[m].parent_idx == b[m].parent_idx && a[m].flags == b[m].flags by {
                    assert(a[m] == b[m]);
                }
            }
            lemma_scan_stop_frame(a, b, i, i + 1);
            lemma_scan_stop_bounds(a, i, i + 1);
            lemma_child_flags_frame(a, b, i, flag_scan_stop(a, i, i + 1));
            assert(dir_flags_derived(a, i) && dir_flags_derived(b, i));
        }
        assert(a[i] == b[i]);
    }
}

/// Deriving the directory tags a second time changes nothing.
pub proof fn law_dir_flags_settled(s: Seq<NodeView>, a: Seq<NodeView>, b: Seq<NodeView>)
    requires
        dir_flags_from(s, a),
        dir_flags_from(a, b),
    ensures
        b == a,
{
    assert(dir_flags_from(a, a)) by {
        assert forall|i: int| 0 <= i < a.len() && (#[trigger] a[i]).is_dir implies dir_flags_derived(a, i) by {
            assert(same_but_flags(s[i], a[i]));
        }
    }
    lemma_dir_flags_agree(a, a, b, 0);
    assert(b =~= a);
}

} // verus!
