//! Tags (`#important`, `#prio`, `#longterm`, `#idea`, `#blocked`) stored as a
//! five-bit flag set, the filter language (`text #tag`), fuzzy matching, and
//! the mapping from mouse columns to tag dots.
use vstd::prelude::*;
use crate::text::{
    free_of, is_ws, lemma_words_join, lemma_words_shape, solid, lemma_contains_concat, lemma_remove_absent, lemma_remove_concat, lemma_trim_end_take,
    lemma_trim_start_skip, no_straddle, occurs_at, remove_all_from, trim_end, trim_start,
    chars_of, contains, contains_chars, eq_ignore_ascii_case, eq_ignore_ascii_case_exec, join,
    join_chars, lowercase, remove_all, remove_all_chars, split_words, starts_with,
    starts_with_chars, str_to_lowercase, string_of, trim, trim_chars, views, words,
};

verus! {

pub const FLAG_IMPORTANT: u8 = 1;
pub const FLAG_PRIO: u8 = 2;
pub const FLAG_LONGTERM: u8 = 4;
pub const FLAG_IDEA: u8 = 8;
pub const FLAG_BLOCKED: u8 = 16;
/// Every tag bit.
pub const ALL_FLAGS: u8 = 31;
/// Number of tags.
pub const TAG_COUNT: usize = 5;

/// The bit of tag `i` (0-based, in the order important, prio, longterm, idea, blocked).
pub open spec fn tag_bit(i: int) -> u8 {
    if i == 0 {
        FLAG_IMPORTANT
    } else if i == 1 {
        FLAG_PRIO
    } else if i == 2 {
        FLAG_LONGTERM
    } else if i == 3 {
        FLAG_IDEA
    } else {
        FLAG_BLOCKED
    }
}

/// The name of tag `i`.
pub open spec fn tag_name(i: int) -> Seq<char> {
    if i == 0 {
        seq!['i', 'm', 'p', 'o', 'r', 't', 'a', 'n', 't']
    } else if i == 1 {
        seq!['p', 'r', 'i', 'o']
    } else if i == 2 {
        seq!['l', 'o', 'n', 'g', 't', 'e', 'r', 'm']
    } else if i == 3 {
        seq!['i', 'd', 'e', 'a']
    } else {
        seq!['b', 'l', 'o', 'c', 'k', 'e', 'd']
    }
}

/// The marker `#name` of tag `i` as written in todo text.
pub open spec fn tag_marker(i: int) -> Seq<char> {
    seq!['#'] + tag_name(i)
}

/// The bit of tag `i`.
pub fn tag_bit_exec(i: usize) -> (r: u8)
    requires
        i < TAG_COUNT,
    ensures
        r == tag_bit(i as int),
{
    if i == 0 {
        FLAG_IMPORTANT
    } else if i == 1 {
        FLAG_PRIO
    } else if i == 2 {
        FLAG_LONGTERM
    } else if i == 3 {
        FLAG_IDEA
    } else {
        FLAG_BLOCKED
    }
}

/// The characters of the name of tag `i`.
pub fn tag_name_chars(i: usize) -> (r: Vec<char>)
    requires
        i < TAG_COUNT,
    ensures
        r@ == tag_name(i as int),
{
    let r = if i == 0 {
        vec!['i', 'm', 'p', 'o', 'r', 't', 'a', 'n', 't']
    } else if i == 1 {
        vec!['p', 'r', 'i', 'o']
    } else if i == 2 {
        vec!['l', 'o', 'n', 'g', 't', 'e', 'r', 'm']
    } else if i == 3 {
        vec!['i', 'd', 'e', 'a']
    } else {
        vec!['b', 'l', 'o', 'c', 'k', 'e', 'd']
    };
    proof {
        assert(r@ =~= tag_name(i as int));
    }
    r
}

/// The name of tag `i` (`important`, `prio`, `longterm`, `idea`, `blocked`).
pub fn tag_name_string(i: usize) -> (r: String)
    requires
        i < TAG_COUNT,
    ensures
        r@ == tag_name(i as int),
{
    let v = tag_name_chars(i);
    string_of(v.as_slice())
}

/// `#name` of tag `i`.
fn tag_marker_chars(i: usize) -> (r: Vec<char>)
    requires
        i < TAG_COUNT,
    ensures
        r@ == tag_marker(i as int),
{
    let mut r = vec!['#'];
    let name = tag_name_chars(i);
    let mut k: usize = 0;
    while k < name.len()
        invariant
            k <= name@.len(),
            name@ == tag_name(i as int),
            r@ == seq!['#'] + name@.take(k as int),
        decreases name.len() - k,
    {
        r.push(name[k]);
        k = k + 1;
        proof {
            assert(name@.take(k as int) =~= name@.take(k - 1).push(name@[k - 1]));
        }
    }
    proof {
        assert(name@.take(name@.len() as int) =~= name@);
    }
    r
}

// ---------------------------------------------------------------------------
// Flags inside todo text
// ---------------------------------------------------------------------------

/// Text and flags after looking for the markers of tags `0..i`: each marker
/// that occurs sets its bit and is deleted everywhere.
pub open spec fn flags_scan(text: Seq<char>, i: int) -> (Seq<char>, u8)
    decreases i,
{
    if i <= 0 {
        (text, 0u8)
    } else {
        let (clean, flags) = flags_scan(text, i - 1);
        if contains(clean, tag_marker(i - 1)) {
            (remove_all(clean, tag_marker(i - 1)), flags | tag_bit(i - 1))
        } else {
            (clean, flags)
        }
    }
}

/// `parse_flags`: the text with every tag marker removed and trimmed, and the
/// flag set of the tags whose marker occurred.
pub open spec fn parsed_flags(text: Seq<char>) -> (Seq<char>, u8) {
    let (clean, flags) = flags_scan(text, 5);
    (trim(clean), flags)
}

/// ` #name` for each tag `0..i` whose bit is set, in tag order.
pub open spec fn flags_suffix(flags: u8, i: int) -> Seq<char>
    decreases i,
{
    if i <= 0 {
        Seq::empty()
    } else if flags & tag_bit(i - 1) != 0 {
        flags_suffix(flags, i - 1) + seq![' '] + tag_marker(i - 1)
    } else {
        flags_suffix(flags, i - 1)
    }
}

/// `serialize_flags`: ` #name` for every set tag.
pub open spec fn serialized_flags(flags: u8) -> Seq<char> {
    flags_suffix(flags, 5)
}

/// Splits the tag markers out of a todo text: the cleaned, trimmed text and
/// the flags whose markers occurred.
pub fn parse_flags(text: &str) -> (r: (String, u8))
    ensures
        (r.0@, r.1) == parsed_flags(text@),
{
    let mut clean = chars_of(text);
    let mut flags: u8 = 0;
    let mut i: usize = 0;
    while i < TAG_COUNT
        invariant
            i <= TAG_COUNT,
            (clean@, flags) == flags_scan(text@, i as int),
        decreases TAG_COUNT - i,
    {
        let marker = tag_marker_chars(i);
        if contains_chars(clean.as_slice(), marker.as_slice()) {
            flags = flags | tag_bit_exec(i);
            clean = remove_all_chars(clean.as_slice(), marker.as_slice());
        }
        i = i + 1;
    }
    let t = trim_chars(clean.as_slice());
    (string_of(t.as_slice()), flags)
}

/// Writes the set tags as ` #name` markers, in tag order.
pub fn serialize_flags(flags: u8) -> (r: String)
    ensures
        r@ == serialized_flags(flags),
{
    let mut out: Vec<char> = Vec::new();
    let mut i: usize = 0;
    while i < TAG_COUNT
        invariant
            i <= TAG_COUNT,
            out@ == flags_suffix(flags, i as int),
        decreases TAG_COUNT - i,
    {
        if flags & tag_bit_exec(i) != 0 {
            let marker = tag_marker_chars(i);
            let ghost before = out@;
            out.push(' ');
            let mut k: usize = 0;
            while k < marker.len()
                invariant
                    k <= marker@.len(),
                    out@ == before + seq![' '] + marker@.take(k as int),
                decreases marker.len() - k,
            {
                out.push(marker[k]);
                k = k + 1;
                proof {
                    assert(marker@.take(k as int) =~= marker@.take(k - 1).push(marker@[k - 1]));
                }
            }
            proof {
                assert(marker@.take(marker@.len() as int) =~= marker@);
            }
        }
        i = i + 1;
    }
    string_of(out.as_slice())
}

// ---------------------------------------------------------------------------
// Filter language
// ---------------------------------------------------------------------------

/// All characters are ASCII digits.
pub open spec fn all_digits(s: Seq<char>) -> bool {
    forall|i: int| 0 <= i < s.len() ==> '0' <= #[trigger] s[i] && s[i] <= '9'
}

/// The tags picked by the digits `s[..k]`: digit `d` in 1..=5 picks tag `d-1`,
/// other digits pick nothing.
pub open spec fn digit_tags(s: Seq<char>, k: int) -> u8
    decreases k,
{
    if k <= 0 {
        0u8
    } else {
        let c = s[k - 1];
        if '1' <= c && c <= '5' {
            digit_tags(s, k - 1) | tag_bit((c as int) - ('1' as int))
        } else {
            digit_tags(s, k - 1)
        }
    }
}

/// The tags among `0..i` whose lower-cased name starts with `q`.
pub open spec fn prefix_tags(q: Seq<char>, i: int) -> u8
    decreases i,
{
    if i <= 0 {
        0u8
    } else if starts_with(lowercase(tag_name(i - 1)), q) {
        prefix_tags(q, i - 1) | tag_bit(i - 1)
    } else {
        prefix_tags(q, i - 1)
    }
}

/// `match_tag_prefix`: the set of tags a `#word` token stands for.
/// - `#` alone: every tag;
/// - `#` and digits: the tags at those 1-based positions (others ignored);
/// - `#name`: every tag whose name starts with `name`, ignoring case;
/// - anything not starting with `#`: no tag.
pub open spec fn tag_prefix_set(word: Seq<char>) -> u8 {
    if word.len() == 0 || word[0] != '#' {
        0u8
    } else {
        let name = word.skip(1);
        if name.len() == 0 {
            ALL_FLAGS
        } else if all_digits(name) {
            digit_tags(name, name.len() as int)
        } else {
            prefix_tags(lowercase(name), 5)
        }
    }
}

/// Resolve a single `#word` token to the set of tags it matches.
pub fn match_tag_prefix(word: &str) -> (r: u8)
    ensures
        r == tag_prefix_set(word@),
{
    let w = chars_of(word);
    if w.len() == 0 || w[0] != '#' {
        return 0;
    }
    let mut all = true;
    let mut k: usize = 1;
    while k < w.len()
        invariant
            1 <= k <= w@.len(),
            all == all_digits(w@.skip(1).take(k - 1)),
        decreases w.len() - k,
    {
        proof {
            assert(w@.skip(1).take(k as int) =~= w@.skip(1).take(k - 1).push(w@[k as int]));
        }
        if !('0' <= w[k] && w[k] <= '9') {
            all = false;
            proof {
                assert(!('0' <= w@.skip(1).take(k as int)[k - 1] && w@.skip(1).take(k as int)[k - 1] <= '9'));
            }
        }
        k = k + 1;
    }
    proof {
        assert(w@.skip(1).take(w@.len() - 1) =~= w@.skip(1));
    }
    if w.len() == 1 {
        return ALL_FLAGS;
    }
    if all {
        let mut set: u8 = 0;
        let mut j: usize = 1;
        while j < w.len()
            invariant
                1 <= j <= w@.len(),
                set == digit_tags(w@.skip(1), j - 1),
            decreases w.len() - j,
        {
            let c = w[j];
            proof {
                assert(w@.skip(1)[j - 1] == c);
            }
            if '1' <= c && c <= '5' {
                let d: usize = ((c as u32) - ('1' as u32)) as usize;
                set = set | tag_bit_exec(d);
            }
            j = j + 1;
        }
        return set;
    }
    let name = string_of(w.as_slice().split_at(1).1);
    proof {
        assert(name@ =~= w@.skip(1));
    }
    let lower = str_to_lowercase(name.as_str());
    let q = chars_of(lower.as_str());
    let mut set: u8 = 0;
    let mut i: usize = 0;
    while i < TAG_COUNT
        invariant
            i <= TAG_COUNT,
            q@ == lowercase(w@.skip(1)),
            set == prefix_tags(q@, i as int),
        decreases TAG_COUNT - i,
    {
        let tn = tag_name_string(i);
        let tl = str_to_lowercase(tn.as_str());
        let tlc = chars_of(tl.as_str());
        if starts_with_chars(tlc.as_slice(), q.as_slice()) {
            set = set | tag_bit_exec(i);
        }
        i = i + 1;
    }
    set
}

/// Words of a filter that are not tag tokens, joined by single spaces, and
/// the tag tokens' sets, both in order.
pub open spec fn filter_parts(ws: Seq<Seq<char>>) -> (Seq<Seq<char>>, Seq<u8>)
    decreases ws.len(),
{
    if ws.len() == 0 {
        (Seq::empty(), Seq::empty())
    } else {
        let (text, sets) = filter_parts(ws.drop_last());
        let m = tag_prefix_set(ws.last());
        if m != 0 {
            (text, sets.push(m))
        } else {
            (text.push(ws.last()), sets)
        }
    }
}

/// Union of a sequence of tag sets.
pub open spec fn union_all(sets: Seq<u8>) -> u8
    decreases sets.len(),
{
    if sets.len() == 0 {
        0u8
    } else {
        union_all(sets.drop_last()) | sets.last()
    }
}

/// `parse_filter_sets`: the text query (non-tag words joined by spaces) and
/// one tag set per tag token.
pub open spec fn filter_sets(buffer: Seq<char>) -> (Seq<char>, Seq<u8>) {
    let (text, sets) = filter_parts(words(buffer));
    (join(text, seq![' ']), sets)
}

/// `parse_filter`: the text query and the union of all tag tokens' sets.
pub open spec fn filter_flat(buffer: Seq<char>) -> (Seq<char>, u8) {
    let (text, sets) = filter_parts(words(buffer));
    (join(text, seq![' ']), union_all(sets))
}

/// Split a filter into its text words and tag tokens.
fn split_filter(buffer: &str) -> (r: (Vec<Vec<char>>, Vec<u8>))
    ensures
        (views(r.0@), r.1@) == filter_parts(words(buffer@)),
{
    let b = chars_of(buffer);
    let ws = split_words(b.as_slice());
    let mut text: Vec<Vec<char>> = Vec::new();
    let mut sets: Vec<u8> = Vec::new();
    let mut i: usize = 0;
    while i < ws.len()
        invariant
            i <= ws@.len(),
            views(ws@) == words(buffer@),
            (views(text@), sets@) == filter_parts(views(ws@).take(i as int)),
        decreases ws.len() - i,
    {
        proof {
            assert(views(ws@).take(i + 1).drop_last() =~= views(ws@).take(i as int));
            assert(views(ws@).take(i + 1).last() == ws@[i as int]@);
        }
        let word = string_of(ws[i].as_slice());
        let m = match_tag_prefix(word.as_str());
        if m != 0 {
            sets.push(m);
        } else {
            let mut copy: Vec<char> = Vec::new();
            let mut k: usize = 0;
            while k < ws[i].len()
                invariant
                    i < ws@.len(),
                    k <= ws@[i as int]@.len(),
                    copy@ == ws@[i as int]@.take(k as int),
                decreases ws@[i as int]@.len() - k,
            {
                copy.push(ws[i][k]);
                k = k + 1;
                proof {
                    assert(copy@ =~= ws@[i as int]@.take(k as int));
                }
            }
            proof {
                assert(copy@ =~= ws@[i as int]@);
            }
            let ghost before = views(text@);
            text.push(copy);
            proof {
                assert(views(text@) =~= before.push(ws@[i as int]@));
            }
        }
        i = i + 1;
    }
    proof {
        assert(views(ws@).take(ws@.len() as int) =~= views(ws@));
    }
    (text, sets)
}

/// Display-side parse: returns (text query, OR of all matched tag bits).
pub fn parse_filter(buffer: &str) -> (r: (String, u8))
    ensures
        (r.0@, r.1) == filter_flat(buffer@),
{
    let (text, sets) = split_filter(buffer);
    let sep = vec![' '];
    let joined = join_chars(&text, sep.as_slice());
    proof {
        assert(sep@ =~= seq![' ']);
    }
    let mut tags: u8 = 0;
    let mut i: usize = 0;
    while i < sets.len()
        invariant
            i <= sets@.len(),
            tags == union_all(sets@.take(i as int)),
        decreases sets.len() - i,
    {
        proof {
            assert(sets@.take(i + 1).drop_last() =~= sets@.take(i as int));
        }
        tags = tags | sets[i];
        i = i + 1;
    }
    proof {
        assert(sets@.take(sets@.len() as int) =~= sets@);
    }
    (string_of(joined.as_slice()), tags)
}

/// Matching-side parse: returns (text query, list of tag-set requirements).
pub fn parse_filter_sets(buffer: &str) -> (r: (String, Vec<u8>))
    ensures
        (r.0@, r.1@) == filter_sets(buffer@),
{
    let (text, sets) = split_filter(buffer);
    let sep = vec![' '];
    let joined = join_chars(&text, sep.as_slice());
    proof {
        assert(sep@ =~= seq![' ']);
    }
    (string_of(joined.as_slice()), sets)
}

// ---------------------------------------------------------------------------
// Fuzzy matching
// ---------------------------------------------------------------------------

/// `q` is a subsequence of `t`: its characters occur in `t` in order, not
/// necessarily next to each other.
pub open spec fn is_subsequence(q: Seq<char>, t: Seq<char>) -> bool
    decreases t.len(),
{
    if q.len() == 0 {
        true
    } else if t.len() == 0 {
        false
    } else if t[0] == q[0] {
        is_subsequence(q.drop_first(), t.drop_first())
    } else {
        is_subsequence(q, t.drop_first())
    }
}

/// Subsequence (fuzzy) match: every char of `query` appears in `text` in order,
/// not necessarily contiguously. Case-insensitive, Unicode-aware.
pub fn fuzzy_match(text: &str, query: &str) -> (r: bool)
    ensures
        r == (query@.len() == 0 || is_subsequence(lowercase(query@), lowercase(text@))),
{
    let qs = chars_of(query);
    if qs.len() == 0 {
        return true;
    }
    let tl = str_to_lowercase(text);
    let ql = str_to_lowercase(query);
    let t = chars_of(tl.as_str());
    let q = chars_of(ql.as_str());
    let mut i: usize = 0;
    let mut j: usize = 0;
    proof {
        assert(q@.skip(0) =~= q@);
        assert(t@.skip(0) =~= t@);
    }
    while i < t.len()
        invariant
            i <= t@.len(),
            j <= q@.len(),
            q@ == lowercase(query@),
            t@ == lowercase(text@),
            is_subsequence(q@, t@) == is_subsequence(q@.skip(j as int), t@.skip(i as int)),
        decreases t.len() - i,
    {
        if j == q.len() {
            proof {
                assert(q@.skip(j as int).len() == 0);
                assert(is_subsequence(q@.skip(j as int), t@.skip(i as int)));
            }
            return true;
        }
        proof {
            let qq = q@.skip(j as int);
            let tt = t@.skip(i as int);
            assert(tt.drop_first() =~= t@.skip(i + 1));
            assert(qq.drop_first() =~= q@.skip(j + 1));
            assert(tt[0] == t@[i as int]);
            assert(qq[0] == q@[j as int]);
        }
        if t[i] == q[j] {
            j = j + 1;
        }
        i = i + 1;
    }
    proof {
        assert(t@.skip(i as int).len() == 0);
    }
    j == q.len()
}

// ---------------------------------------------------------------------------
// Filter buffer editing
// ---------------------------------------------------------------------------

/// The words that are not `m`, ignoring ASCII case.
pub open spec fn without_marker(ws: Seq<Seq<char>>, m: Seq<char>) -> Seq<Seq<char>>
    decreases ws.len(),
{
    if ws.len() == 0 {
        ws
    } else if eq_ignore_ascii_case(ws.last(), m) {
        without_marker(ws.drop_last(), m)
    } else {
        without_marker(ws.drop_last(), m).push(ws.last())
    }
}

/// `toggle_filter_tag`: the buffer's words without `#tag` (any ASCII case)
/// if it was there, or with `#tag` appended if it was not, joined by spaces.
pub open spec fn toggled_filter(buffer: Seq<char>, tag: Seq<char>) -> Seq<char> {
    let m = seq!['#'] + tag;
    let ws = words(buffer);
    let kept = without_marker(ws, m);
    if kept.len() == ws.len() {
        join(kept.push(m), seq![' '])
    } else {
        join(kept, seq![' '])
    }
}

proof fn lemma_without_marker_len(ws: Seq<Seq<char>>, m: Seq<char>)
    ensures
        without_marker(ws, m).len() <= ws.len(),
        without_marker(ws, m).len() == ws.len() <==> forall|i: int| 0 <= i < ws.len() ==> !eq_ignore_ascii_case(#[trigger] ws[i], m),
    decreases ws.len(),
{
    if ws.len() > 0 {
        lemma_without_marker_len(ws.drop_last(), m);
        if !(forall|i: int| 0 <= i < ws.drop_last().len() ==> !eq_ignore_ascii_case(#[trigger] ws.drop_last()[i], m)) {
            let k = choose|i: int| 0 <= i < ws.drop_last().len() && eq_ignore_ascii_case(#[trigger] ws.drop_last()[i], m);
            assert(ws[k] == ws.drop_last()[k]);
        }
        assert forall|i: int| 0 <= i < ws.drop_last().len() implies ws.drop_last()[i] == #[trigger] ws[i] by {}
    }
}

/// Toggle a `#tagname` token in the filter buffer. Adds it if not present, removes
/// it if it is. Whitespace is normalized so the buffer stays clean.
pub fn toggle_filter_tag(buffer: &mut String, tag_name: &str)
    ensures
        final(buffer)@ == toggled_filter(old(buffer)@, tag_name@),
{
    let mut marker = vec!['#'];
    let tn = chars_of(tag_name);
    let mut k: usize = 0;
    while k < tn.len()
        invariant
            k <= tn@.len(),
            marker@ == seq!['#'] + tn@.take(k as int),
        decreases tn.len() - k,
    {
        marker.push(tn[k]);
        k = k + 1;
        proof {
            assert(tn@.take(k as int) =~= tn@.take(k - 1).push(tn@[k - 1]));
        }
    }
    proof {
        assert(tn@.take(tn@.len() as int) =~= tn@);
    }
    let b = chars_of(buffer.as_str());
    let ws = split_words(b.as_slice());
    let mut kept: Vec<Vec<char>> = Vec::new();
    let mut found = false;
    let mut i: usize = 0;
    let ghost m = seq!['#'] + tag_name@;
    while i < ws.len()
        invariant
            i <= ws@.len(),
            marker@ == m,
            views(ws@) == words(old(buffer)@),
            views(kept@) == without_marker(views(ws@).take(i as int), m),
            found == (without_marker(views(ws@).take(i as int), m).len() < i),
        decreases ws.len() - i,
    {
        proof {
            assert(views(ws@).take(i + 1).drop_last() =~= views(ws@).take(i as int));
            assert(views(ws@).take(i + 1).last() == ws@[i as int]@);
            lemma_without_marker_len(views(ws@).take(i as int), m);
        }
        if eq_ignore_ascii_case_exec(ws[i].as_slice(), marker.as_slice()) {
            found = true;
        } else {
            let mut copy: Vec<char> = Vec::new();
            let mut j: usize = 0;
            while j < ws[i].len()
                invariant
                    i < ws@.len(),
                    j <= ws@[i as int]@.len(),
                    copy@ == ws@[i as int]@.take(j as int),
                decreases ws@[i as int]@.len() - j,
            {
                copy.push(ws[i][j]);
                j = j + 1;
                proof {
                    assert(copy@ =~= ws@[i as int]@.take(j as int));
                }
            }
            proof {
                assert(copy@ =~= ws@[i as int]@);
            }
            let ghost before = views(kept@);
            kept.push(copy);
            proof {
                assert(views(kept@) =~= before.push(ws@[i as int]@));
            }
        }
        i = i + 1;
    }
    proof {
        assert(views(ws@).take(ws@.len() as int) =~= views(ws@));
        lemma_without_marker_len(views(ws@), m);
    }
    if !found {
        let ghost before = views(kept@);
        kept.push(marker);
        proof {
            assert(views(kept@) =~= before.push(m));
        }
    }
    let sep = vec![' '];
    let joined = join_chars(&kept, sep.as_slice());
    proof {
        assert(sep@ =~= seq![' ']);
    }
    *buffer = string_of(joined.as_slice());
}

// ---------------------------------------------------------------------------
// Screen geometry
// ---------------------------------------------------------------------------

/// The dot under column `mouse_col` when the five dots start five columns
/// right of `x`.
pub open spec fn dot_at(mouse_col: int, x: int) -> Option<u8> {
    if x + 5 <= mouse_col <= x + 9 {
        Some((mouse_col - x - 5) as u8)
    } else {
        None
    }
}

/// Map a screen column to a tag dot of a todo row whose list area starts at
/// `list_area_x` (4 columns of highlight symbol, 1 leading space, 5 dots).
pub fn mouse_x_to_dot(mouse_col: u16, list_area_x: u16) -> (r: Option<u8>)
    requires
        list_area_x + 9 <= u16::MAX,
    ensures
        r == dot_at(mouse_col as int, list_area_x as int),
{
    let dot_start = list_area_x + 5;
    let dot_end = dot_start + 4;
    if mouse_col >= dot_start && mouse_col <= dot_end {
        Some((mouse_col - dot_start) as u8)
    } else {
        None
    }
}

/// Same dot-column mapping but for the filter strip, whose dots sit after a
/// 5-column padding.
pub fn mouse_x_to_filter_dot(mouse_col: u16, strip_x: u16) -> (r: Option<u8>)
    requires
        strip_x + 9 <= u16::MAX,
    ensures
        r == dot_at(mouse_col as int, strip_x as int),
{
    let dot_start = strip_x + 5;
    let dot_end = dot_start + 4;
    if mouse_col >= dot_start && mouse_col <= dot_end {
        Some((mouse_col - dot_start) as u8)
    } else {
        None
    }
}

/// A 24-bit color, or any other terminal color (left as it is).
#[derive(PartialEq, Eq, Structural, Clone, Copy, Debug)]
pub enum Rgb {
    Rgb(u8, u8, u8),
    Other,
}

/// Darken an RGB color by ~3x; other colors are unchanged.
pub fn dim_color(c: Rgb) -> (r: Rgb)
    ensures
        r == (match c {
            Rgb::Rgb(red, green, blue) => Rgb::Rgb(red / 3, green / 3, blue / 3),
            Rgb::Other => Rgb::Other,
        }),
{
    match c {
        Rgb::Rgb(red, green, blue) => Rgb::Rgb(red / 3, green / 3, blue / 3),
        Rgb::Other => Rgb::Other,
    }
}

/// How one of the five tag slots of a row is drawn.
#[derive(PartialEq, Eq, Structural, Clone, Copy, Debug)]
pub enum SlotState {
    /// The tag is set: its dot in its color.
    Lit,
    /// Not set but under the mouse: a dim preview of its dot.
    Preview,
    /// Not set: a neutral `·`.
    Empty,
}

/// The state of slot `i` for a row with `flags` and the mouse over dot `hover`.
pub open spec fn slot_state(flags: u8, hover: Option<u8>, i: int) -> SlotState {
    if flags & tag_bit(i) != 0 {
        SlotState::Lit
    } else if hover == Some(i as u8) {
        SlotState::Preview
    } else {
        SlotState::Empty
    }
}

/// The five slot states of a row (what `flags_slots_with_hover` renders).
pub fn flags_slots_with_hover(flags: u8, hover_dot: Option<u8>) -> (r: Vec<SlotState>)
    ensures
        r@.len() == 5,
        forall|i: int| 0 <= i < 5 ==> r@[i] == slot_state(flags, hover_dot, i),
{
    let mut r: Vec<SlotState> = Vec::new();
    let mut i: usize = 0;
    while i < TAG_COUNT
        invariant
            i <= TAG_COUNT,
            r@.len() == i,
            forall|k: int| 0 <= k < i ==> r@[k] == slot_state(flags, hover_dot, k),
        decreases TAG_COUNT - i,
    {
        let s = if flags & tag_bit_exec(i) != 0 {
            SlotState::Lit
        } else if hover_dot == Some(i as u8) {
            SlotState::Preview
        } else {
            SlotState::Empty
        };
        r.push(s);
        i = i + 1;
    }
    r
}

/// The five slot states of a row without hover.
pub fn flags_slots(flags: u8) -> (r: Vec<SlotState>)
    ensures
        r@.len() == 5,
        forall|i: int| 0 <= i < 5 ==> r@[i] == slot_state(flags, None, i),
{
    flags_slots_with_hover(flags, None)
}

// ---------------------------------------------------------------------------
// Reading back written tags
// ---------------------------------------------------------------------------

/// No tag marker occurs in the text.
pub open spec fn markerless(text: Seq<char>) -> bool {
    forall|i: int| 0 <= i < 5 ==> !contains(text, #[trigger] tag_marker(i))
}

/// The tag blocks written for tags `0..k` of `f`, with the markers of the
/// tags below `i` already taken out (their blank stays).
spec fn blocks(f: u8, i: int, k: int) -> Seq<char>
    decreases k,
{
    if k <= 0 {
        Seq::empty()
    } else if f & tag_bit(k - 1) != 0 {
        blocks(f, i, k - 1) + (if k - 1 < i { seq![' '] } else { seq![' '] + tag_marker(k - 1) })
    } else {
        blocks(f, i, k - 1)
    }
}

/// The bits of the first `i` tags.
spec fn low_mask(i: int) -> u8 {
    if i <= 0 {
        0
    } else if i == 1 {
        1
    } else if i == 2 {
        3
    } else if i == 3 {
        7
    } else if i == 4 {
        15
    } else {
        31
    }
}

proof fn lemma_marker_shape(j: int)
    requires
        0 <= j < 5,
    ensures
        tag_marker(j).len() > 1,
        tag_marker(j)[0] == '#',
        forall|t: int| 1 <= t < tag_marker(j).len() ==> tag_marker(j)[t] != '#' && tag_marker(j)[t] != ' ',
        free_of(tag_marker(j), ' '),
{
    let m = tag_marker(j);
    assert forall|t: int| 1 <= t < m.len() implies m[t] != '#' && m[t] != ' ' by {
        assert(m[t] == tag_name(j)[t - 1]);
    }
}

/// The marker of tag `i` occurs in ` #name` of tag `j` only when `i == j`.
proof fn lemma_marker_in_block(i: int, j: int)
    requires
        0 <= i < 5,
        0 <= j < 5,
    ensures
        contains(seq![' '] + tag_marker(j), tag_marker(i)) == (i == j),
        remove_all(seq![' '] + tag_marker(j), tag_marker(i)) == if i == j {
            seq![' ']
        } else {
            seq![' '] + tag_marker(j)
        },
        !contains(seq![' '], tag_marker(i)),
        remove_all(seq![' '], tag_marker(i)) == seq![' '],
{
    let b = seq![' '] + tag_marker(j);
    let mi = tag_marker(i);
    let mj = tag_marker(j);
    lemma_marker_shape(i);
    lemma_marker_shape(j);
    if contains(b, mi) {
        let k = choose|k: int| occurs_at(b, mi, k);
        assert(b.subrange(k, k + mi.len())[0] == b[k]);
        assert(b[k] == '#');
        assert(k == 1) by {
            if k == 0 {
                assert(b[0] == ' ');
            } else if k > 1 {
                assert(b[k] == mj[k - 1]);
            }
        }
        if i != j {
            assert(b.subrange(1, 1 + mi.len() as int) =~= mj.subrange(0, mi.len() as int));
            assert(mi[1] == mj[1]);
            assert(mi[2] == mj[2]);
            assert(mi.len() <= mj.len());
            assert(mi[mi.len() - 1] == mj[mi.len() - 1]);
            assert(false);
        }
    }
    if i == j {
        assert(occurs_at(b, mi, 1)) by {
            assert(b.subrange(1, 1 + mi.len() as int) =~= mi);
        }
        assert(!occurs_at(b, mi, 0));
        assert(remove_all_from(b, mi, 1 + mi.len() as int) =~= Seq::<char>::empty()) by {
            assert(b.subrange(1 + mi.len() as int, b.len() as int) =~= Seq::<char>::empty());
        }
        assert(remove_all_from(b, mi, 0) == seq![b[0]] + remove_all_from(b, mi, 1));
        assert(seq![b[0]] + Seq::<char>::empty() =~= seq![' ']);
    } else {
        lemma_remove_absent(b, mi, 0);
        assert(b.subrange(0, b.len() as int) =~= b);
    }
    let sp = seq![' '];
    if contains(sp, mi) {
        let k = choose|k: int| occurs_at(sp, mi, k);
        assert(false);
    }
    lemma_remove_absent(sp, mi, 0);
    assert(sp.subrange(0, 1) =~= sp);
}

proof fn lemma_blocks_step(text: Seq<char>, f: u8, i: int, k: int)
    requires
        markerless(text),
        0 <= i < 5,
        0 <= k <= 5,
    ensures
        contains(text + blocks(f, i, k), tag_marker(i)) == (i < k && f & tag_bit(i) != 0),
        remove_all(text + blocks(f, i, k), tag_marker(i)) == text + blocks(f, i + 1, k),
    decreases k,
{
    let mi = tag_marker(i);
    lemma_marker_shape(i);
    if k == 0 {
        assert(text + blocks(f, i, k) =~= text);
        assert(text + blocks(f, i + 1, k) =~= text);
        assert(!contains(text, mi));
        lemma_remove_absent(text, mi, 0);
        assert(text.subrange(0, text.len() as int) =~= text);
    } else {
        lemma_blocks_step(text, f, i, k - 1);
        if f & tag_bit(k - 1) != 0 {
            let prev = text + blocks(f, i, k - 1);
            let b = if k - 1 < i { seq![' '] } else { seq![' '] + tag_marker(k - 1) };
            assert(text + blocks(f, i, k) =~= prev + b);
            assert(no_straddle(prev, b, mi));
            lemma_contains_concat(prev, b, mi);
            lemma_remove_concat(prev, b, mi);
            lemma_marker_in_block(i, k - 1);
            assert(text + blocks(f, i + 1, k) =~= text + blocks(f, i + 1, k - 1) + remove_all(b, mi));
        }
    }
}

proof fn lemma_blocks_unset(f: u8, i: int, k: int)
    requires
        f & tag_bit(i) == 0,
    ensures
        blocks(f, i, k) == blocks(f, i + 1, k),
    decreases k,
{
    if k > 0 {
        lemma_blocks_unset(f, i, k - 1);
    }
}

proof fn lemma_blocks_suffix(f: u8, k: int)
    ensures
        blocks(f, 0, k) == flags_suffix(f, k),
    decreases k,
{
    if k > 0 {
        lemma_blocks_suffix(f, k - 1);
    }
}

proof fn lemma_blocks_blank(f: u8, k: int)
    requires
        k <= 5,
    ensures
        forall|t: int| 0 <= t < blocks(f, 5, k).len() ==> blocks(f, 5, k)[t] == ' ',
    decreases k,
{
    if k > 0 {
        lemma_blocks_blank(f, k - 1);
        let p = blocks(f, 5, k - 1);
        if f & tag_bit(k - 1) != 0 {
            assert forall|t: int| 0 <= t < blocks(f, 5, k).len() implies blocks(f, 5, k)[t] == ' ' by {
                if t < p.len() {
                    assert(blocks(f, 5, k)[t] == p[t]);
                }
            }
        }
    }
}

proof fn lemma_low_mask_step(f: u8, i: int)
    requires
        0 <= i < 5,
    ensures
        f & tag_bit(i) != 0 ==> (f & low_mask(i)) | tag_bit(i) == f & low_mask(i + 1),
        f & tag_bit(i) == 0 ==> f & low_mask(i) == f & low_mask(i + 1),
        f & tag_bit(i) != 0 ==> f & low_mask(i + 1) != 0,
{
    if i == 0 {
        assert(f & 1u8 != 0 ==> (f & 0u8) | 1u8 == f & 1u8) by (bit_vector);
        assert(f & 1u8 == 0 ==> f & 0u8 == f & 1u8) by (bit_vector);
    } else if i == 1 {
        assert(f & 2u8 != 0 ==> (f & 1u8) | 2u8 == f & 3u8) by (bit_vector);
        assert(f & 2u8 == 0 ==> f & 1u8 == f & 3u8) by (bit_vector);
        assert(f & 2u8 != 0 ==> f & 3u8 != 0) by (bit_vector);
    } else if i == 2 {
        assert(f & 4u8 != 0 ==> (f & 3u8) | 4u8 == f & 7u8) by (bit_vector);
        assert(f & 4u8 == 0 ==> f & 3u8 == f & 7u8) by (bit_vector);
        assert(f & 4u8 != 0 ==> f & 7u8 != 0) by (bit_vector);
    } else if i == 3 {
        assert(f & 8u8 != 0 ==> (f & 7u8) | 8u8 == f & 15u8) by (bit_vector);
        assert(f & 8u8 == 0 ==> f & 7u8 == f & 15u8) by (bit_vector);
        assert(f & 8u8 != 0 ==> f & 15u8 != 0) by (bit_vector);
    } else {
        assert(f & 16u8 != 0 ==> (f & 15u8) | 16u8 == f & 31u8) by (bit_vector);
        assert(f & 16u8 == 0 ==> f & 15u8 == f & 31u8) by (bit_vector);
        assert(f & 16u8 != 0 ==> f & 31u8 != 0) by (bit_vector);
    }
}

proof fn lemma_scan_written(text: Seq<char>, f: u8, i: int)
    requires
        markerless(text),
        0 <= i <= 5,
    ensures
        flags_scan(text + flags_suffix(f, 5), i) == (text + blocks(f, i, 5), f & low_mask(i)),
    decreases i,
{
    if i == 0 {
        lemma_blocks_suffix(f, 5);
        assert(f & 0u8 == 0u8) by (bit_vector);
    } else {
        lemma_scan_written(text, f, i - 1);
        lemma_blocks_step(text, f, i - 1, 5);
        lemma_low_mask_step(f, i - 1);
        if f & tag_bit(i - 1) == 0 {
            lemma_blocks_unset(f, i - 1, 5);
        }
    }
}

/// `parse_flags` reads back what `serialize_flags` appended: a text without
/// blanks at its ends and without tag markers, followed by the markers of a
/// flag set, gives back the text and the set.
pub proof fn law_flags_reload(text: Seq<char>, flags: u8)
    requires
        flags <= ALL_FLAGS,
        text.len() > 0 ==> !is_ws(text[0]) && !is_ws(text.last()),
        markerless(text),
    ensures
        parsed_flags(text + serialized_flags(flags)) == (text, flags),
{
    lemma_scan_written(text, flags, 5);
    assert(flags & 31u8 == flags) by (bit_vector)
        requires
            flags <= 31u8,
    ;
    let sp = blocks(flags, 5, 5);
    lemma_blocks_blank(flags, 5);
    let w = text + sp;
    if text.len() == 0 {
        assert(w =~= sp);
        assert forall|t: int| 0 <= t < sp.len() implies is_ws(#[trigger] sp[t]) by {}
        lemma_trim_start_skip(sp, sp.len() as int);
        assert(trim_start(sp.skip(sp.len() as int)) == Seq::<char>::empty());
        assert(trim_start(sp) =~= text);
    } else {
        assert(trim_start(w) == w);
        assert forall|t: int| text.len() <= t < w.len() implies is_ws(#[trigger] w[t]) by {
            assert(w[t] == sp[t - text.len()]);
        }
        lemma_trim_end_take(w, text.len() as int);
        assert(w.take(text.len() as int) =~= text);
        assert(trim_end(text) == text);
    }
}

proof fn lemma_suffix_shape_upto(f: u8, k: int)
    requires
        0 <= k <= 5,
    ensures
        free_of(flags_suffix(f, k), '\n'),
        f & low_mask(k) != 0 ==> flags_suffix(f, k).len() > 0 && !is_ws(flags_suffix(f, k).last()),
        f & low_mask(k) == 0 ==> flags_suffix(f, k).len() == 0,
    decreases k,
{
    if k == 0 {
        assert(f & 0u8 == 0u8) by (bit_vector);
    } else {
        lemma_suffix_shape_upto(f, k - 1);
        lemma_low_mask_step(f, k - 1);
        let p = flags_suffix(f, k - 1);
        if f & tag_bit(k - 1) != 0 {
            let m = tag_marker(k - 1);
            lemma_marker_shape(k - 1);
            let q = p + seq![' '] + m;
            assert(q.last() == m[m.len() - 1]);
            assert forall|t: int| 0 <= t < q.len() implies q[t] != '\n' by {
                if t < p.len() {
                    assert(q[t] == p[t]);
                } else if t > p.len() {
                    assert(q[t] == m[t - p.len() - 1]);
                }
            }
        }
    }
}

/// The markers written for a flag set hold no line break, and end in a
/// non-blank character when the set is not empty.
pub proof fn lemma_suffix_shape(f: u8)
    requires
        f <= ALL_FLAGS,
    ensures
        free_of(serialized_flags(f), '\n'),
        f != 0 ==> serialized_flags(f).len() > 0 && !is_ws(serialized_flags(f).last()),
        f == 0 ==> serialized_flags(f).len() == 0,
{
    lemma_suffix_shape_upto(f, 5);
    assert(f & 31u8 == f) by (bit_vector)
        requires
            f <= 31u8,
    ;
}

proof fn lemma_without_marker_none(ws: Seq<Seq<char>>, m: Seq<char>)
    requires
        forall|i: int| 0 <= i < ws.len() ==> !eq_ignore_ascii_case(#[trigger] ws[i], m),
    ensures
        without_marker(ws, m) == ws,
    decreases ws.len(),
{
    if ws.len() > 0 {
        assert forall|i: int| 0 <= i < ws.drop_last().len() implies !eq_ignore_ascii_case(#[trigger] ws.drop_last()[i], m) by {
            assert(ws.drop_last()[i] == ws[i]);
        }
        lemma_without_marker_none(ws.drop_last(), m);
        assert(!eq_ignore_ascii_case(ws[ws.len() - 1], m));
        assert(ws.drop_last().push(ws.last()) =~= ws);
    }
}

/// Toggling a tag that the filter does not hold, twice, leaves the filter's
/// words as they were (joined by single blanks): the first toggle adds
/// `#tag`, the second takes it out again.
pub proof fn law_toggle_twice(buffer: Seq<char>, tag: Seq<char>)
    requires
        solid(tag),
        forall|i: int| 0 <= i < words(buffer).len() ==> !eq_ignore_ascii_case(#[trigger] words(buffer)[i], seq!['#'] + tag),
    ensures
        toggled_filter(toggled_filter(buffer, tag), tag) == join(words(buffer), seq![' ']),
{
    let m = seq!['#'] + tag;
    let ws = words(buffer);
    lemma_without_marker_none(ws, m);
    let once = join(ws.push(m), seq![' ']);
    assert(toggled_filter(buffer, tag) == once);
    lemma_words_shape(buffer);
    assert(solid(m)) by {
        assert forall|i: int| 0 <= i < m.len() implies !is_ws(#[trigger] m[i]) by {
            if i > 0 {
                assert(m[i] == tag[i - 1]);
            }
        }
    }
    assert forall|i: int| 0 <= i < ws.push(m).len() implies (#[trigger] ws.push(m)[i]).len() > 0 && solid(ws.push(m)[i]) by {
        if i < ws.len() {
            assert(ws.push(m)[i] == ws[i]);
        }
    }
    lemma_words_join(ws.push(m));
    assert(ws.push(m).drop_last() =~= ws);
    assert(eq_ignore_ascii_case(m, m));
    assert(without_marker(ws.push(m), m) == ws);
}

} // verus!
