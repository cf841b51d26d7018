//! Operations on the todo list as the interactive view sees it: which rows
//! are visible under collapsed sections and parents, which rows a filter
//! keeps, and reordering blocks (an item with its subtasks).
use vstd::prelude::*;
use crate::tags::{fuzzy_match, is_subsequence, parse_filter_sets, filter_sets};
use crate::text::lowercase;
use crate::todo::{CheckState, TodoItem, TodoView, todo_views};

verus! {

// ---------------------------------------------------------------------------
// Filtering
// ---------------------------------------------------------------------------

/// The fuzzy text match used by filters (`fuzzy_match`).
pub open spec fn fuzzy(text: Seq<char>, query: Seq<char>) -> bool {
    query.len() == 0 || is_subsequence(lowercase(query), lowercase(text))
}

/// An item matches a filter: its text fuzzily matches the text query (if
/// any) and it carries at least one tag of every tag set.
pub open spec fn matches_filter(v: TodoView, text_query: Seq<char>, tag_sets: Seq<u8>) -> bool {
    &&& (text_query.len() == 0 || fuzzy(v.text, text_query))
    &&& forall|k: int| 0 <= k < tag_sets.len() ==> v.flags & #[trigger] tag_sets[k] != 0
}

/// Whether an item matches a filter (text query and tag sets).
pub fn item_matches(item: &TodoItem, text_query: &str, tag_sets: &[u8]) -> (r: bool)
    ensures
        r == matches_filter(item@, text_query@, tag_sets@),
{
    if !text_query.is_empty() {
        if !fuzzy_match(item.text.as_str(), text_query) {
            return false;
        }
    }
    let mut k: usize = 0;
    while k < tag_sets.len()
        invariant
            k <= tag_sets@.len(),
            forall|m: int| 0 <= m < k ==> item.flags & #[trigger] tag_sets@[m] != 0,
        decreases tag_sets.len() - k,
    {
        if item.flags & tag_sets[k] == 0 {
            return false;
        }
        k = k + 1;
    }
    true
}

/// The nearest header strictly before index `k`, if any.
pub open spec fn header_before(s: Seq<TodoView>, k: int) -> Option<int>
    decreases k,
{
    if k <= 0 {
        None
    } else if s[k - 1].is_header {
        Some(k - 1)
    } else {
        header_before(s, k - 1)
    }
}

/// The indices marked when walking back from a match at `j` looking for
/// items shallower than `needed`: each such item is marked and becomes the
/// new bound; the walk stops at a header (marked) or, after marking a
/// top-level item, at the nearest header before it (marked).
pub open spec fn walk_marks(s: Seq<TodoView>, j: int, needed: u8) -> Set<int>
    decreases j,
{
    if j <= 0 {
        Set::empty()
    } else {
        let k = j - 1;
        if s[k].is_header {
            Set::empty().insert(k)
        } else if s[k].depth < needed {
            if s[k].depth == 0 {
                match header_before(s, k) {
                    Some(h) => Set::empty().insert(k).insert(h),
                    None => Set::empty().insert(k),
                }
            } else {
                walk_marks(s, k, s[k].depth).insert(k)
            }
        } else {
            walk_marks(s, k, needed)
        }
    }
}

/// The rows a filter keeps: every matching row, and the parents and section
/// header that the walk back from a matching row marks.
pub open spec fn kept_by_filter(s: Seq<TodoView>, tq: Seq<char>, ts: Seq<u8>, x: int) -> bool {
    ||| matches_filter(s[x], tq, ts)
    ||| exists|i: int| 0 <= i < s.len() && matches_filter(s[i], tq, ts) && #[trigger] walk_marks(s, i, s[i].depth).contains(x)
}

pub proof fn lemma_header_before_bounds(s: Seq<TodoView>, k: int)
    requires
        k <= s.len(),
    ensures
        header_before(s, k) matches Some(h) ==> 0 <= h < k && s[h].is_header,
    decreases k,
{
    if k > 0 && !s[k - 1].is_header {
        lemma_header_before_bounds(s, k - 1);
    }
}

proof fn lemma_walk_marks_bounds(s: Seq<TodoView>, j: int, needed: u8)
    requires
        j <= s.len(),
    ensures
        forall|x: int| #[trigger] walk_marks(s, j, needed).contains(x) ==> 0 <= x < j,
    decreases j,
{
    if j > 0 {
        let k = j - 1;
        if !s[k].is_header {
            if s[k].depth < needed {
                if s[k].depth == 0 {
                    lemma_header_before_bounds(s, k);
                    match header_before(s, k) {
                        Some(h) => {
                            assert forall|x: int| #[trigger] walk_marks(s, j, needed).contains(x) implies 0 <= x < j by {
                                assert(walk_marks(s, j, needed) == Set::<int>::empty().insert(k).insert(h));
                            }
                        },
                        None => {
                            assert forall|x: int| #[trigger] walk_marks(s, j, needed).contains(x) implies 0 <= x < j by {
                                assert(walk_marks(s, j, needed) == Set::<int>::empty().insert(k));
                            }
                        },
                    }
                } else {
                    lemma_walk_marks_bounds(s, k, s[k].depth);
                    assert forall|x: int| #[trigger] walk_marks(s, j, needed).contains(x) implies 0 <= x < j by {
                        assert(walk_marks(s, j, needed) == walk_marks(s, k, s[k].depth).insert(k));
                    }
                }
            } else {
                lemma_walk_marks_bounds(s, k, needed);
                assert forall|x: int| #[trigger] walk_marks(s, j, needed).contains(x) implies 0 <= x < j by {
                    assert(walk_marks(s, j, needed) == walk_marks(s, k, needed));
                }
            }
        } else {
            assert forall|x: int| #[trigger] walk_marks(s, j, needed).contains(x) implies 0 <= x < j by {
                assert(walk_marks(s, j, needed) == Set::<int>::empty().insert(k));
            }
        }
    }
}

/// Returns a per-item keep mask. An item is kept if it matches directly or
/// if the walk back from a matching item marks it: its parents and the
/// enclosing section header, so filtered results keep their context.
pub fn compute_filter_keep(items: &[TodoItem], text_query: &str, tag_sets: &[u8]) -> (r: Vec<bool>)
    ensures
        r@.len() == items@.len(),
        forall|x: int|
            0 <= x < r@.len() ==> #[trigger] r@[x] == kept_by_filter(todo_views(items@), text_query@, tag_sets@, x),
{
    let n = items.len();
    let ghost s = todo_views(items@);
    let mut keep: Vec<bool> = Vec::new();
    let mut i: usize = 0;
    while i < n
        invariant
            n == items@.len(),
            s == todo_views(items@),
            i <= n,
            keep@.len() == i,
            forall|x: int| 0 <= x < i ==> #[trigger] keep@[x] == matches_filter(s[x], text_query@, tag_sets@),
        decreases n - i,
    {
        let m = item_matches(&items[i], text_query, tag_sets);
        keep.push(m);
        i = i + 1;
    }
    let mut i: usize = 0;
    while i < n
        invariant
            n == items@.len(),
            s == todo_views(items@),
            i <= n,
            keep@.len() == n,
            forall|x: int|
                i <= x < n ==> #[trigger] keep@[x] == matches_filter(s[x], text_query@, tag_sets@),
            forall|x: int|
                0 <= x < n ==> (#[trigger] keep@[x] == (matches_filter(s[x], text_query@, tag_sets@) || exists|p: int|
                    0 <= p < i && matches_filter(s[p], text_query@, tag_sets@) && #[trigger] walk_marks(
                        s,
                        p,
                        s[p].depth,
                    ).contains(x))),
        decreases n - i,
    {
        if keep[i] {
            let ghost start = keep@;
            let mut needed = items[i].depth;
            let mut j: usize = i;
            let ghost mut marked: Set<int> = Set::empty();
            proof {
                assert(start[i as int]);
                assert(marked + walk_marks(s, i as int, needed) =~= walk_marks(s, i as int, needed));
            }
            let mut done = false;
            while j > 0 && !done
                invariant
                    n == items@.len(),
                    s == todo_views(items@),
                    i < n,
                    j <= i,
                    keep@.len() == n,
                    start.len() == n,
                    done ==> walk_marks(s, i as int, s[i as int].depth) == marked,
                    !done ==> walk_marks(s, i as int, s[i as int].depth) == marked + walk_marks(
                        s,
                        j as int,
                        needed,
                    ),
                    forall|x: int| #[trigger] marked.contains(x) ==> 0 <= x < i,
                    forall|x: int| 0 <= x < n ==> #[trigger] keep@[x] == (start[x] || marked.contains(x)),
                decreases j,
            {
                let ghost j0 = j as int;
                let ghost needed0 = needed;
                j = j - 1;
                proof {
                    assert(s[j as int] == items@[j as int]@);
                }
                if items[j].is_header {
                    proof {
                        assert(walk_marks(s, j0, needed0) == Set::<int>::empty().insert(j as int));
                    }
                    keep.set(j, true);
                    proof {
                        marked = marked.insert(j as int);
                    }
                    done = true;
                } else if items[j].depth < needed {
                    keep.set(j, true);
                    needed = items[j].depth;
                    proof {
                        marked = marked.insert(j as int);
                    }
                    if needed == 0 {
                        let mut k: usize = j;
                        while k > 0 && !items[k - 1].is_header
                            invariant
                                n == items@.len(),
                                s == todo_views(items@),
                                k <= j < i < n,
                                header_before(s, j as int) == header_before(s, k as int),
                            decreases k,
                        {
                            proof {
                                assert(s[k - 1] == items@[k - 1]@);
                            }
                            k = k - 1;
                        }
                        if k > 0 {
                            proof {
                                assert(s[k - 1] == items@[k - 1]@);
                                assert(walk_marks(s, j0, needed0) == Set::<int>::empty().insert(j as int).insert(k - 1));
                            }
                            keep.set(k - 1, true);
                            proof {
                                marked = marked.insert(k - 1);
                            }
                        } else {
                            proof {
                                assert(walk_marks(s, j0, needed0) == Set::<int>::empty().insert(j as int));
                            }
                        }
                        done = true;
                    } else {
                        proof {
                            assert(walk_marks(s, j0, needed0) == walk_marks(s, j as int, needed).insert(j as int));
                        }
                    }
                } else {
                    proof {
                        assert(walk_marks(s, j0, needed0) == walk_marks(s, j as int, needed));
                    }
                }
                proof {
                    if !done {
                        assert(walk_marks(s, i as int, s[i as int].depth) =~= marked + walk_marks(s, j as int, needed));
                    } else {
                        assert(walk_marks(s, i as int, s[i as int].depth) =~= marked);
                    }
                }
            }
            proof {
                if !done {
                    assert(walk_marks(s, 0, needed) =~= Set::<int>::empty());
                }
                assert(walk_marks(s, i as int, s[i as int].depth) =~= marked);
                assert(matches_filter(s[i as int], text_query@, tag_sets@));
                assert forall|x: int| 0 <= x < n implies #[trigger] keep@[x] == (matches_filter(s[x], text_query@, tag_sets@) || exists|p: int|
                    0 <= p < i + 1 && matches_filter(s[p], text_query@, tag_sets@) && #[trigger] walk_marks(
                        s,
                        p,
                        s[p].depth,
                    ).contains(x)) by {
                    if marked.contains(x) {
                        assert(walk_marks(s, i as int, s[i as int].depth).contains(x));
                    }
                }
            }
        } else {
            proof {
                assert forall|x: int| 0 <= x < n implies #[trigger] keep@[x] == (matches_filter(s[x], text_query@, tag_sets@) || exists|p: int|
                    0 <= p < i + 1 && matches_filter(s[p], text_query@, tag_sets@) && #[trigger] walk_marks(
                        s,
                        p,
                        s[p].depth,
                    ).contains(x)) by {
                    assert(!matches_filter(s[i as int], text_query@, tag_sets@));
                }
            }
        }
        i = i + 1;
    }
    keep
}

// ---------------------------------------------------------------------------
// Visibility
// ---------------------------------------------------------------------------

/// State of the visibility scan after the first `n` items: visible indices,
/// whether the current section is collapsed, and the depth of a collapsed
/// parent whose subtasks are being skipped.
pub open spec fn visible_scan(s: Seq<TodoView>, n: int) -> (Seq<usize>, bool, Option<u8>)
    decreases n,
{
    if n <= 0 {
        (Seq::empty(), false, None)
    } else {
        let (v, skip, cd) = visible_scan(s, n - 1);
        let it = s[n - 1];
        if it.is_header {
            (v.push((n - 1) as usize), it.collapsed, None)
        } else if skip {
            (v, skip, cd)
        } else if cd matches Some(d) && it.depth > d {
            (v, skip, cd)
        } else {
            (
                v.push((n - 1) as usize),
                skip,
                if it.has_subtasks && it.collapsed { Some(it.depth) } else { None },
            )
        }
    }
}

/// `get_visible_indices`: headers are always visible; other items are hidden
/// under a collapsed header and under a collapsed parent.
pub open spec fn visible_indices(s: Seq<TodoView>) -> Seq<usize> {
    visible_scan(s, s.len() as int).0
}

/// Get indices of visible items (skip items under collapsed headers/parents).
pub fn get_visible_indices(items: &[TodoItem]) -> (r: Vec<usize>)
    ensures
        r@ == visible_indices(todo_views(items@)),
{
    let ghost s = todo_views(items@);
    let mut visible: Vec<usize> = Vec::new();
    let mut skip_section = false;
    let mut collapse_depth: Option<u8> = None;
    let mut i: usize = 0;
    while i < items.len()
        invariant
            s == todo_views(items@),
            i <= items@.len(),
            (visible@, skip_section, collapse_depth) == visible_scan(s, i as int),
        decreases items.len() - i,
    {
        let item = &items[i];
        proof {
            assert(s[i as int] == items@[i as int]@);
        }
        if item.is_header {
            visible.push(i);
            skip_section = item.collapsed;
            collapse_depth = None;
        } else if skip_section {
        } else {
            let hidden = match collapse_depth {
                Some(cd) => item.depth > cd,
                None => false,
            };
            if !hidden {
                visible.push(i);
                collapse_depth = if item.has_subtasks && item.collapsed {
                    Some(item.depth)
                } else {
                    None
                };
            }
        }
        i = i + 1;
    }
    visible
}

/// The rows a filter keeps, as a predicate on row indices.
pub open spec fn keep_pred(s: Seq<TodoView>, tq: Seq<char>, ts: Seq<u8>) -> spec_fn(usize) -> bool {
    |i: usize| kept_by_filter(s, tq, ts, i as int)
}

/// The visible rows under a filter: all visible rows without a filter, or
/// the visible rows the filter keeps.
pub open spec fn visible_filtered(s: Seq<TodoView>, search: Seq<char>) -> Seq<usize> {
    let (tq, ts) = filter_sets(search);
    if tq.len() == 0 && ts.len() == 0 {
        visible_indices(s)
    } else {
        visible_indices(s).filter(keep_pred(s, tq, ts))
    }
}

/// A text query or a tag set filters the visible rows: a row is listed
/// exactly when it is visible and the filter keeps it (it matches, or it is
/// a parent or the section header of a match); every listed row is kept.
pub proof fn law_filter_keeps_matches(s: Seq<TodoView>, search: Seq<char>)
    requires
        filter_sets(search).0.len() > 0 || filter_sets(search).1.len() > 0,
    ensures
        forall|k: int| 0 <= k < visible_filtered(s, search).len() ==> kept_by_filter(
            s,
            filter_sets(search).0,
            filter_sets(search).1,
            #[trigger] visible_filtered(s, search)[k] as int,
        ),
        forall|x: usize| #[trigger] visible_filtered(s, search).contains(x) <==> (visible_indices(s).contains(x)
            && kept_by_filter(s, filter_sets(search).0, filter_sets(search).1, x as int)),
{
    let (tq, ts) = filter_sets(search);
    let v = visible_indices(s);
    let f = keep_pred(s, tq, ts);
    let r = v.filter(f);
    v.filter_lemma(f);
    assert forall|x: usize| #[trigger] r.contains(x) implies v.contains(x) && kept_by_filter(s, tq, ts, x as int) by {
        v.lemma_filter_contains_rev(f, x);
        let k = choose|k: int| 0 <= k < r.len() && r[k] == x;
        assert(f(r[k]));
    }
    assert forall|x: usize| v.contains(x) && kept_by_filter(s, tq, ts, x as int) implies #[trigger] r.contains(x) by {
        let k = choose|k: int| 0 <= k < v.len() && v[k] == x;
        assert(f(v[k]));
    }
}

/// An empty filter lists every visible row.
pub proof fn law_no_filter_shows_all(s: Seq<TodoView>, search: Seq<char>)
    requires
        filter_sets(search).0.len() == 0,
        filter_sets(search).1.len() == 0,
    ensures
        visible_filtered(s, search) == visible_indices(s),
{
}

pub proof fn lemma_visible_scan_bounds(s: Seq<TodoView>, n: int)
    requires
        0 <= n <= s.len(),
    ensures
        forall|k: int| 0 <= k < visible_scan(s, n).0.len() ==> #[trigger] visible_scan(s, n).0[k] < n,
    decreases n,
{
    if n > 0 {
        lemma_visible_scan_bounds(s, n - 1);
        let prev = visible_scan(s, n - 1).0;
        let cur = visible_scan(s, n).0;
        assert(cur == prev || cur == prev.push((n - 1) as usize));
        assert forall|k: int| 0 <= k < cur.len() implies #[trigger] cur[k] < n by {
            if k < prev.len() {
                assert(cur[k] == prev[k]);
            }
        }
    }
}

/// Build the visible-items list, applying the filter if one is active.
pub fn compute_visible(items: &[TodoItem], search_buffer: &str) -> (r: Vec<usize>)
    ensures
        r@ == visible_filtered(todo_views(items@), search_buffer@),
{
    let (text_q, tag_sets) = parse_filter_sets(search_buffer);
    let v = get_visible_indices(items);
    if text_q.as_str().is_empty() && tag_sets.len() == 0 {
        return v;
    }
    let keep = compute_filter_keep(items, text_q.as_str(), tag_sets.as_slice());
    let ghost s = todo_views(items@);
    let ghost f = keep_pred(s, text_q@, tag_sets@);
    proof {
        lemma_visible_scan_bounds(s, s.len() as int);
    }
    let mut out: Vec<usize> = Vec::new();
    let mut k: usize = 0;
    while k < v.len()
        invariant
            k <= v@.len(),
            v@ == visible_indices(s),
            s == todo_views(items@),
            keep@.len() == s.len(),
            forall|x: int| 0 <= x < keep@.len() ==> #[trigger] keep@[x] == kept_by_filter(s, text_q@, tag_sets@, x),
            f == keep_pred(s, text_q@, tag_sets@),
            forall|x: int| 0 <= x < v@.len() ==> #[trigger] v@[x] < s.len(),
            out@ == v@.take(k as int).filter(f),
        decreases v.len() - k,
    {
        proof {
            v@.take(k as int).lemma_filter_push(v@[k as int], f);
            assert(v@.take(k as int).push(v@[k as int]) =~= v@.take(k + 1));
        }
        let idx = v[k];
        proof {
            assert(f(idx) == kept_by_filter(s, text_q@, tag_sets@, idx as int));
        }
        if keep[idx] {
            out.push(idx);
        }
        k = k + 1;
    }
    proof {
        assert(v@.take(v@.len() as int) =~= v@);
    }
    out
}

// ---------------------------------------------------------------------------
// Reordering
// ---------------------------------------------------------------------------

/// First index at or after `j` past the block of item `idx`: the end of the
/// list, a header, or an item no deeper than `idx`.
pub open spec fn block_end_from(s: Seq<TodoView>, idx: int, j: int) -> int
    decreases s.len() - j,
{
    if j >= s.len() || s[j].is_header || s[j].depth <= s[idx].depth {
        j
    } else {
        block_end_from(s, idx, j + 1)
    }
}

/// `block_end`: the exclusive end of the block of item `idx` (the item and
/// its consecutive deeper descendants).
pub open spec fn block_end_spec(s: Seq<TodoView>, idx: int) -> int {
    block_end_from(s, idx, idx + 1)
}

pub proof fn lemma_block_end_bounds(s: Seq<TodoView>, idx: int, j: int)
    requires
        0 <= idx < j <= s.len(),
    ensures
        j <= block_end_from(s, idx, j) <= s.len(),
        forall|k: int| j <= k < block_end_from(s, idx, j) ==> !(#[trigger] s[k]).is_header && s[k].depth > s[idx].depth,
    decreases s.len() - j,
{
    if !(j >= s.len() || s[j].is_header || s[j].depth <= s[idx].depth) {
        lemma_block_end_bounds(s, idx, j + 1);
    }
}

/// Returns the exclusive end index of the block starting at `idx`.
pub fn block_end(items: &[TodoItem], idx: usize) -> (r: usize)
    requires
        idx < items@.len(),
    ensures
        r as int == block_end_spec(todo_views(items@), idx as int),
        idx < r <= items@.len(),
{
    let ghost s = todo_views(items@);
    let depth = items[idx].depth;
    let mut end = idx + 1;
    proof {
        lemma_block_end_bounds(s, idx as int, idx + 1);
    }
    while end < items.len() && !items[end].is_header && items[end].depth > depth
        invariant
            s == todo_views(items@),
            idx < end <= items@.len(),
            depth == s[idx as int].depth,
            block_end_spec(s, idx as int) == block_end_from(s, idx as int, end as int),
        decreases items.len() - end,
    {
        proof {
            assert(s[end as int] == items@[end as int]@);
        }
        end = end + 1;
    }
    proof {
        if end < items@.len() {
            assert(s[end as int] == items@[end as int]@);
        }
    }
    end
}

/// `can_drag`: both rows exist, neither is a header or a code TODO, they
/// have the same depth, and every row between them (inclusive) is a
/// non-header at least that deep.
pub open spec fn can_drag_spec(s: Seq<TodoView>, start: int, target: int) -> bool {
    &&& 0 <= start < s.len()
    &&& 0 <= target < s.len()
    &&& !s[start].is_header && !s[target].is_header
    &&& !s[start].is_code_todo && !s[target].is_code_todo
    &&& s[start].depth == s[target].depth
    &&& forall|i: int|
        (if start <= target { start } else { target }) <= i <= (if start <= target { target } else { start })
            ==> !(#[trigger] s[i]).is_header && s[i].depth >= s[start].depth
}

/// True iff `start` and `target` are valid endpoints for a drag-to-reorder.
pub fn can_drag(items: &[TodoItem], start: usize, target: usize) -> (r: bool)
    ensures
        r == can_drag_spec(todo_views(items@), start as int, target as int),
{
    let ghost s = todo_views(items@);
    if start >= items.len() || target >= items.len() {
        return false;
    }
    proof {
        assert(s[start as int] == items@[start as int]@);
        assert(s[target as int] == items@[target as int]@);
    }
    if items[start].is_header || items[target].is_header {
        return false;
    }
    if items[start].is_code_todo || items[target].is_code_todo {
        return false;
    }
    if items[start].depth != items[target].depth {
        return false;
    }
    let depth = items[start].depth;
    let (lo, hi) = if start <= target {
        (start, target)
    } else {
        (target, start)
    };
    let mut i: usize = lo;
    while i <= hi
        invariant
            s == todo_views(items@),
            lo <= i <= hi + 1,
            hi < items@.len(),
            depth == s[start as int].depth,
            lo == (if start <= target { start } else { target }),
            hi == (if start <= target { target } else { start }),
            forall|k: int| lo <= k < i ==> !(#[trigger] s[k]).is_header && s[k].depth >= depth,
        decreases hi + 1 - i,
    {
        proof {
            assert(s[i as int] == items@[i as int]@);
        }
        if items[i].is_header {
            return false;
        }
        if items[i].depth < depth {
            return false;
        }
        i = i + 1;
    }
    true
}

/// The list after moving the block at `start` to `target` (`can_drag`
/// endpoints): moving down, the block lands after the target's block;
/// moving up, it lands where the target was.
pub open spec fn dragged(s: Seq<TodoView>, start: int, target: int) -> Seq<TodoView> {
    let se = block_end_spec(s, start);
    if start < target {
        let te = block_end_spec(s, target);
        s.subrange(0, start) + s.subrange(se, te) + s.subrange(start, se) + s.subrange(te, s.len() as int)
    } else if target < start {
        s.subrange(0, target) + s.subrange(start, se) + s.subrange(target, start) + s.subrange(se, s.len() as int)
    } else {
        s
    }
}

/// Where the moved block starts afterwards.
pub open spec fn dragged_start(s: Seq<TodoView>, start: int, target: int) -> int {
    if start < target {
        start + (block_end_spec(s, target) - block_end_spec(s, start))
    } else if target < start {
        target
    } else {
        start
    }
}

pub proof fn lemma_drag_blocks(s: Seq<TodoView>, start: int, target: int)
    requires
        can_drag_spec(s, start, target),
    ensures
        start < target ==> block_end_spec(s, start) <= target,
        target < start ==> block_end_spec(s, target) <= start,
{
    lemma_block_end_bounds(s, start, start + 1);
    lemma_block_end_bounds(s, target, target + 1);
    if start < target && block_end_spec(s, start) > target {
        assert(s[target].depth > s[start].depth);
    }
    if target < start && block_end_spec(s, target) > start {
        assert(s[start].depth > s[target].depth);
    }
}

/// Moves the segment `items[a..b]` in front of `items[from..a]`
/// (a rotation of `items[from..b]` left by `a - from`).
pub(crate) fn rotate_segment(items: &mut Vec<TodoItem>, from: usize, a: usize, b: usize)
    requires
        from <= a <= b <= old(items)@.len(),
    ensures
        final(items)@ == old(items)@.subrange(0, from as int) + old(items)@.subrange(a as int, b as int)
            + old(items)@.subrange(from as int, a as int) + old(items)@.subrange(b as int, old(items)@.len() as int),
{
    let ghost o = items@;
    let mut k: usize = 0;
    while k < b - a
        invariant
            from <= a <= b <= o.len(),
            k <= b - a,
            items@ == o.subrange(0, from as int) + o.subrange(a as int, a + k) + o.subrange(from as int, a as int)
                + o.subrange(a + k, o.len() as int),
        decreases b - a - k,
    {
        let x = items.remove(a + k);
        proof {
            assert(x == o[a + k]);
        }
        items.insert(from + k, x);
        k = k + 1;
        proof {
            assert(items@ =~= o.subrange(0, from as int) + o.subrange(a as int, a + k) + o.subrange(
                from as int,
                a as int,
            ) + o.subrange(a + k, o.len() as int));
        }
    }
}

/// Move the block starting at `start` to land at `target`'s position and
/// return the new start index of the moved block.
pub fn perform_drag_move(items: &mut Vec<TodoItem>, start: usize, target: usize) -> (r: usize)
    requires
        can_drag_spec(todo_views(old(items)@), start as int, target as int),
    ensures
        todo_views(final(items)@) == dragged(todo_views(old(items)@), start as int, target as int),
        r as int == dragged_start(todo_views(old(items)@), start as int, target as int),
{
    let ghost s = todo_views(items@);
    proof {
        lemma_drag_blocks(s, start as int, target as int);
    }
    let start_end = block_end(items.as_slice(), start);
    if start < target {
        let target_end = block_end(items.as_slice(), target);
        let ghost o = items@;
        rotate_segment(items, start, start_end, target_end);
        proof {
            assert(todo_views(items@) =~= dragged(s, start as int, target as int));
        }
        start + (target_end - start_end)
    } else if target < start {
        let ghost o = items@;
        rotate_segment(items, target, start, start_end);
        proof {
            assert(todo_views(items@) =~= dragged(s, start as int, target as int));
        }
        target
    } else {
        start
    }
}

/// The header of the section containing row `selected` (its source file and
/// project), else the first row's, else an empty path and `local`.
pub open spec fn section_of(s: Seq<TodoView>, selected: int) -> (Seq<char>, Seq<char>) {
    if s.len() == 0 {
        (Seq::empty(), seq!['l', 'o', 'c', 'a', 'l'])
    } else {
        match header_before(s, selected + 1) {
            Some(h) => (s[h].source, s[h].project),
            None => (s[0].source, s[0].project),
        }
    }
}

/// Find the section (file, project) that row `selected` belongs to.
pub fn find_section(items: &[TodoItem], selected: usize) -> (r: (String, String))
    requires
        items@.len() == 0 || selected < items@.len(),
    ensures
        (r.0@, r.1@) == section_of(todo_views(items@), selected as int),
{
    let ghost s = todo_views(items@);
    if items.len() > 0 {
        let mut i: usize = selected + 1;
        while i > 0
            invariant
                s == todo_views(items@),
                i <= selected + 1,
                selected < items@.len(),
                header_before(s, selected + 1) == header_before(s, i as int),
            decreases i,
        {
            proof {
                assert(s[i - 1] == items@[i - 1]@);
            }
            if items[i - 1].is_header {
                return (items[i - 1].source.clone(), items[i - 1].project.clone());
            }
            i = i - 1;
        }
        proof {
            assert(s[0] == items@[0]@);
        }
        (items[0].source.clone(), items[0].project.clone())
    } else {
        let local = vec!['l', 'o', 'c', 'a', 'l'];
        proof {
            assert(local@ =~= seq!['l', 'o', 'c', 'a', 'l']);
        }
        (String::new(), crate::text::string_of(local.as_slice()))
    }
}

/// The row under screen line `mouse_row` for a list drawn from line `area_y`
/// (`area_height` lines high), scrolled by `offset` visible rows, where
/// visible row `v` takes `row_counts[v]` lines (1 when unknown).
pub open spec fn row_at(mouse_row: int, area_y: int, area_height: int, offset: int, visible: Seq<usize>, row_counts: Seq<u16>) -> Option<usize> {
    if mouse_row < area_y || mouse_row >= area_y + area_height {
        None
    } else {
        row_from(mouse_row - area_y, offset, visible, row_counts)
    }
}

/// The visible row that screen line `line` (counted from the row `v`) lands in.
pub open spec fn row_from(line: int, v: int, visible: Seq<usize>, row_counts: Seq<u16>) -> Option<usize>
    decreases visible.len() - v,
{
    if v < 0 || v >= visible.len() {
        None
    } else {
        let rows = if v < row_counts.len() { row_counts[v] as int } else { 1 };
        if line < rows {
            Some(visible[v])
        } else {
            row_from(line - rows, v + 1, visible, row_counts)
        }
    }
}

/// Map a screen line to the row under it, accounting for scroll offset and
/// per-row heights (wrapped rows take several lines).
pub fn mouse_y_to_real_idx(
    mouse_row: u16,
    area_y: u16,
    area_height: u16,
    state_offset: usize,
    visible: &[usize],
    row_counts: &[u16],
) -> (r: Option<usize>)
    ensures
        r == row_at(mouse_row as int, area_y as int, if area_y + area_height > u16::MAX { u16::MAX - area_y } else { area_height as int }, state_offset as int, visible@, row_counts@),
{
    let bottom: u16 = if area_height > u16::MAX - area_y { u16::MAX } else { area_y + area_height };
    if mouse_row < area_y || mouse_row >= bottom {
        return None;
    }
    let mut list_row: usize = (mouse_row - area_y) as usize;
    let mut v: usize = state_offset;
    while v < visible.len()
        invariant
            area_y <= mouse_row < bottom,
            bottom as int == area_y + (if area_y + area_height > u16::MAX { u16::MAX - area_y } else { area_height as int }),
            state_offset <= v,
            row_from((mouse_row - area_y) as int, state_offset as int, visible@, row_counts@)
                == row_from(list_row as int, v as int, visible@, row_counts@),
        decreases visible.len() - v,
    {
        let rows: usize = if v < row_counts.len() { row_counts[v] as usize } else { 1 };
        proof {
            assert(rows as int == (if v < row_counts@.len() { row_counts@[v as int] as int } else { 1 }));
        }
        if list_row < rows {
            proof {
                assert(row_from(list_row as int, v as int, visible@, row_counts@) == Some(visible@[v as int]));
            }
            return Some(visible[v]);
        }
        list_row = list_row - rows;
        v = v + 1;
    }
    None
}

/// Dragging only moves items: afterwards the list holds the same items, each
/// as often as before.
pub proof fn law_drag_keeps_items(s: Seq<TodoView>, start: int, target: int)
    requires
        can_drag_spec(s, start, target),
    ensures
        dragged(s, start, target).to_multiset() == s.to_multiset(),
{
    broadcast use vstd::seq_lib::lemma_multiset_commutative;
    broadcast use vstd::multiset::group_multiset_axioms;
    lemma_drag_blocks(s, start, target);
    lemma_block_end_bounds(s, start, start + 1);
    lemma_block_end_bounds(s, target, target + 1);
    let se = block_end_spec(s, start);
    if start < target {
        let te = block_end_spec(s, target);
        let a = s.subrange(0, start);
        let b = s.subrange(start, se);
        let c = s.subrange(se, te);
        let d = s.subrange(te, s.len() as int);
        assert(s =~= a + b + c + d);
        assert(dragged(s, start, target) == a + c + b + d);
        assert(a.to_multiset().add(b.to_multiset()).add(c.to_multiset())
            =~= a.to_multiset().add(c.to_multiset()).add(b.to_multiset()));
    } else if target < start {
        let a = s.subrange(0, target);
        let b = s.subrange(target, start);
        let c = s.subrange(start, se);
        let d = s.subrange(se, s.len() as int);
        assert(s =~= a + b + c + d);
        assert(dragged(s, start, target) == a + c + b + d);
        assert(a.to_multiset().add(b.to_multiset()).add(c.to_multiset())
            =~= a.to_multiset().add(c.to_multiset()).add(b.to_multiset()));
    }
}

} // verus!
