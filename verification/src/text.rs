//! Character-sequence toolkit shared by every parser and formatter of the
//! library: Unicode white space, trimming, splitting into words, joining,
//! prefix and substring search, and the conversions between `String` and
//! vectors of `char`.
use vstd::prelude::*;

verus! {

/// The Unicode `White_Space` property: the characters that `char::is_whitespace`
/// accepts and that `str::trim` / `str::split_whitespace` treat as blanks.
pub open spec fn is_ws(c: char) -> bool {
    ('\t' <= c && c <= '\r') || c == ' ' || c == '\u{85}' || c == '\u{a0}' || c == '\u{1680}'
        || ('\u{2000}' <= c && c <= '\u{200a}') || c == '\u{2028}' || c == '\u{2029}'
        || c == '\u{202f}' || c == '\u{205f}' || c == '\u{3000}'
}

/// What `char::is_alphanumeric` answers (Unicode `Alphabetic` or `Numeric`).
pub uninterp spec fn alphanumeric(c: char) -> bool;

/// What `str::to_lowercase` returns for a string (full Unicode case mapping,
/// including the context-dependent final sigma).
pub uninterp spec fn lowercase(s: Seq<char>) -> Seq<char>;

/// Whether `c` is white space in the sense of `char::is_whitespace` (the
/// Unicode `White_Space` property), checked against the list in `is_ws`.
pub(crate) fn char_is_whitespace(c: char) -> (r: bool)
    ensures
        r == is_ws(c),
{
    ('\t' <= c && c <= '\r') || c == ' ' || c == '\u{85}' || c == '\u{a0}' || c == '\u{1680}'
        || ('\u{2000}' <= c && c <= '\u{200a}') || c == '\u{2028}' || c == '\u{2029}'
        || c == '\u{202f}' || c == '\u{205f}' || c == '\u{3000}'
}

/// `char::is_alphanumeric`; its answer is named `alphanumeric`.
#[verifier::external_body]
pub(crate) fn char_is_alphanumeric(c: char) -> (r: bool)
    ensures
        r == alphanumeric(c),
{
    c.is_alphanumeric()
}

/// `str::to_lowercase`; its result is named `lowercase`.
#[verifier::external_body]
pub(crate) fn str_to_lowercase(s: &str) -> (r: String)
    ensures
        r@ == lowercase(s@),
{
    s.to_lowercase()
}

/// The characters of a string in order, gathered from `str::chars`.
pub(crate) fn chars_of(s: &str) -> (v: Vec<char>)
    ensures
        v@ == s@,
{
    broadcast use vstd::string::axiom_spec_iter;
    let mut v: Vec<char> = Vec::new();
    for c in it: s.chars()
        invariant
            it.seq() == s@,
            v@ == it.seq().take(it.index() as int),
    {
        v.push(c);
    }
    v
}

/// `FromIterator<char>` for `String`: the string made of the given characters.
#[verifier::external_body]
pub(crate) fn string_of(v: &[char]) -> (s: String)
    ensures
        s@ == v@,
{
    v.iter().collect()
}

// ---------------------------------------------------------------------------
// Specifications
// ---------------------------------------------------------------------------

/// The view of an optional string slice.
pub open spec fn opt_str_view(o: Option<&str>) -> Option<Seq<char>> {
    match o {
        Some(s) => Some(s@),
        None => None,
    }
}

/// Drops leading white space.
pub open spec fn trim_start(s: Seq<char>) -> Seq<char>
    decreases s.len(),
{
    if s.len() > 0 && is_ws(s[0]) {
        trim_start(s.drop_first())
    } else {
        s
    }
}

/// Drops trailing white space.
pub open spec fn trim_end(s: Seq<char>) -> Seq<char>
    decreases s.len(),
{
    if s.len() > 0 && is_ws(s.last()) {
        trim_end(s.drop_last())
    } else {
        s
    }
}

/// `str::trim`: white space removed at both ends.
pub open spec fn trim(s: Seq<char>) -> Seq<char> {
    trim_end(trim_start(s))
}

/// Scanning state of `split_whitespace` after reading `s`: the finished words
/// and the word being read.
pub open spec fn words_state(s: Seq<char>) -> (Seq<Seq<char>>, Seq<char>)
    decreases s.len(),
{
    if s.len() == 0 {
        (Seq::empty(), Seq::empty())
    } else {
        let (ws, cur) = words_state(s.drop_last());
        let c = s.last();
        if is_ws(c) {
            if cur.len() > 0 {
                (ws.push(cur), Seq::empty())
            } else {
                (ws, cur)
            }
        } else {
            (ws, cur.push(c))
        }
    }
}

/// `str::split_whitespace`: the maximal runs of non-white-space characters.
pub open spec fn words(s: Seq<char>) -> Seq<Seq<char>> {
    let (ws, cur) = words_state(s);
    if cur.len() > 0 {
        ws.push(cur)
    } else {
        ws
    }
}

/// `[..].join(sep)`: the pieces with `sep` between consecutive ones.
pub open spec fn join(ws: Seq<Seq<char>>, sep: Seq<char>) -> Seq<char>
    decreases ws.len(),
{
    if ws.len() == 0 {
        Seq::empty()
    } else if ws.len() == 1 {
        ws[0]
    } else {
        join(ws.drop_last(), sep) + sep + ws.last()
    }
}

/// A line ending in `\r` loses it (the `\r` of a `\r\n` line ending).
pub open spec fn strip_cr(l: Seq<char>) -> Seq<char> {
    if l.len() > 0 && l.last() == '\r' {
        l.drop_last()
    } else {
        l
    }
}

/// Scanning state of `str::lines` after reading `s`: finished lines and the
/// line being read.
pub open spec fn lines_state(s: Seq<char>) -> (Seq<Seq<char>>, Seq<char>)
    decreases s.len(),
{
    if s.len() == 0 {
        (Seq::empty(), Seq::empty())
    } else {
        let (ls, cur) = lines_state(s.drop_last());
        if s.last() == '\n' {
            (ls.push(strip_cr(cur)), Seq::empty())
        } else {
            (ls, cur.push(s.last()))
        }
    }
}

/// `str::lines`: the text split at `\n` (and `\r\n`) line endings; a final
/// line ending adds no empty line.
pub open spec fn lines(s: Seq<char>) -> Seq<Seq<char>> {
    let (ls, cur) = lines_state(s);
    if cur.len() > 0 {
        ls.push(cur)
    } else {
        ls
    }
}

/// Position of the first `c` in `s`, if any.
pub open spec fn first_index(s: Seq<char>, c: char) -> Option<int>
    decreases s.len(),
{
    if s.len() == 0 {
        None
    } else if s[0] == c {
        Some(0)
    } else {
        match first_index(s.drop_first(), c) {
            Some(i) => Some(i + 1),
            None => None,
        }
    }
}

/// `str::split_once(c)`: the parts before and after the first `c`.
pub open spec fn split_once(s: Seq<char>, c: char) -> Option<(Seq<char>, Seq<char>)> {
    match first_index(s, c) {
        Some(i) => Some((s.take(i), s.skip(i + 1))),
        None => None,
    }
}

/// The views of a vector of character vectors.
pub open spec fn views(v: Seq<Vec<char>>) -> Seq<Seq<char>> {
    v.map_values(|w: Vec<char>| w@)
}

/// `p` occurs in `s` at position `i`.
pub open spec fn occurs_at(s: Seq<char>, p: Seq<char>, i: int) -> bool {
    0 <= i && i + p.len() <= s.len() && s.subrange(i, i + p.len()) == p
}

/// `str::contains`.
pub open spec fn contains(s: Seq<char>, p: Seq<char>) -> bool {
    exists|i: int| occurs_at(s, p, i)
}

/// `str::starts_with`.
pub open spec fn starts_with(s: Seq<char>, p: Seq<char>) -> bool {
    occurs_at(s, p, 0)
}

/// `str::replace(p, "")` read from position `from` on: every non-overlapping
/// occurrence of `p`, taken from the left, is deleted.
pub open spec fn remove_all_from(s: Seq<char>, p: Seq<char>, from: int) -> Seq<char>
    decreases s.len() - from,
{
    if p.len() == 0 || from < 0 || from >= s.len() {
        if 0 <= from && from <= s.len() {
            s.subrange(from, s.len() as int)
        } else {
            Seq::empty()
        }
    } else if occurs_at(s, p, from) {
        remove_all_from(s, p, from + p.len())
    } else {
        seq![s[from]] + remove_all_from(s, p, from + 1)
    }
}

/// `str::replace(p, "")`.
pub open spec fn remove_all(s: Seq<char>, p: Seq<char>) -> Seq<char> {
    remove_all_from(s, p, 0)
}

/// ASCII lower-casing of one character (`char::to_ascii_lowercase`).
pub open spec fn ascii_lower(c: char) -> char {
    if 'A' <= c && c <= 'Z' {
        ((c as u32) + 32) as char
    } else {
        c
    }
}

/// `str::eq_ignore_ascii_case`.
pub open spec fn eq_ignore_ascii_case(a: Seq<char>, b: Seq<char>) -> bool {
    a.len() == b.len() && forall|i: int| 0 <= i < a.len() ==> ascii_lower(#[trigger] a[i]) == ascii_lower(b[i])
}

// ---------------------------------------------------------------------------
// Lemmas
// ---------------------------------------------------------------------------

pub proof fn lemma_trim_start_skip(s: Seq<char>, i: int)
    requires
        0 <= i <= s.len(),
        forall|k: int| 0 <= k < i ==> is_ws(#[trigger] s[k]),
    ensures
        trim_start(s) == trim_start(s.skip(i)),
    decreases i,
{
    if i > 0 {
        assert(s.skip(1).skip(i - 1) =~= s.skip(i));
        assert(s.drop_first() =~= s.skip(1));
        assert forall|k: int| 0 <= k < i - 1 implies is_ws(#[trigger] s.drop_first()[k]) by {
            assert(s.drop_first()[k] == s[k + 1]);
        }
        assert(is_ws(s[0]));
        lemma_trim_start_skip(s.drop_first(), i - 1);
    } else {
        assert(s.skip(0) =~= s);
    }
}

pub proof fn lemma_trim_end_take(s: Seq<char>, j: int)
    requires
        0 <= j <= s.len(),
        forall|k: int| j <= k < s.len() ==> is_ws(#[trigger] s[k]),
    ensures
        trim_end(s) == trim_end(s.take(j)),
    decreases s.len() - j,
{
    if j < s.len() {
        assert(s.drop_last().take(j) =~= s.take(j));
        lemma_trim_end_take(s.drop_last(), j);
    } else {
        assert(s.take(j) =~= s);
    }
}

/// `c` does not occur in `s`.
pub open spec fn free_of(s: Seq<char>, c: char) -> bool {
    forall|i: int| 0 <= i < s.len() ==> s[i] != c
}

/// Reading characters that hold no line break only extends the current line.
pub proof fn lemma_lines_state_plain(s: Seq<char>, l: Seq<char>)
    requires
        free_of(l, '\n'),
    ensures
        lines_state(s + l) == (lines_state(s).0, lines_state(s).1 + l),
    decreases l.len(),
{
    if l.len() == 0 {
        assert(s + l =~= s);
        assert(lines_state(s).1 + l =~= lines_state(s).1);
    } else {
        lemma_lines_state_plain(s, l.drop_last());
        assert((s + l).drop_last() =~= s + l.drop_last());
        assert((s + l).last() == l.last());
        assert(lines_state(s).1 + l.drop_last() + seq![l.last()] =~= lines_state(s).1 + l);
    }
}

/// After a finished line, a line without breaks followed by `\n` is one more
/// line (a final `\r` dropped).
pub proof fn lemma_lines_state_line(s: Seq<char>, l: Seq<char>)
    requires
        lines_state(s).1.len() == 0,
        free_of(l, '\n'),
    ensures
        lines_state(s + l + seq!['\n']) == (lines_state(s).0.push(strip_cr(l)), Seq::<char>::empty()),
{
    lemma_lines_state_plain(s, l);
    let t = s + l + seq!['\n'];
    assert(t.drop_last() =~= s + l);
    assert(lines_state(s).1 + l =~= l);
}

/// A sequence with no white space at either end is its own trim.
pub proof fn lemma_trim_plain(s: Seq<char>)
    requires
        s.len() > 0 ==> !is_ws(s[0]) && !is_ws(s.last()),
    ensures
        trim(s) == s,
{
    assert(trim_start(s) == s);
}

/// The first `c` of `k + r` is the one that starts `r` when `k` has none.
pub proof fn lemma_first_index_after(k: Seq<char>, r: Seq<char>, c: char)
    requires
        free_of(k, c),
        r.len() > 0,
        r[0] == c,
    ensures
        first_index(k + r, c) == Some(k.len() as int),
    decreases k.len(),
{
    if k.len() == 0 {
        assert(k + r =~= r);
    } else {
        assert((k + r).drop_first() =~= k.drop_first() + r);
        lemma_first_index_after(k.drop_first(), r, c);
    }
}

/// Splitting `k + [c] + v` at its first `c`, when `k` has none, gives `k` and `v`.
pub proof fn lemma_split_once_at(k: Seq<char>, v: Seq<char>, c: char)
    requires
        free_of(k, c),
    ensures
        split_once(k + seq![c] + v, c) == Some((k, v)),
{
    assert(k + seq![c] + v =~= k + (seq![c] + v));
    lemma_first_index_after(k, seq![c] + v, c);
    assert((k + seq![c] + v).take(k.len() as int) =~= k);
    assert((k + seq![c] + v).skip(k.len() as int + 1) =~= v);
}

/// Removing every `p` from a text that holds none changes nothing.
pub proof fn lemma_remove_absent(s: Seq<char>, p: Seq<char>, from: int)
    requires
        0 <= from <= s.len(),
        !contains(s, p),
    ensures
        remove_all_from(s, p, from) == s.subrange(from, s.len() as int),
    decreases s.len() - from,
{
    if p.len() > 0 && from < s.len() {
        assert(!occurs_at(s, p, from));
        lemma_remove_absent(s, p, from + 1);
        assert(seq![s[from]] + s.subrange(from + 1, s.len() as int) =~= s.subrange(from, s.len() as int));
    }
}

/// Removal in `a + b` read from position `|a| + j` is removal in `b` from `j`.
proof fn lemma_remove_shift(a: Seq<char>, b: Seq<char>, p: Seq<char>, j: int)
    requires
        0 <= j <= b.len(),
    ensures
        remove_all_from(a + b, p, a.len() + j) == remove_all_from(b, p, j),
    decreases b.len() - j,
{
    let s = a + b;
    let k = a.len() + j;
    if p.len() == 0 || j >= b.len() {
        assert(s.subrange(k, s.len() as int) =~= b.subrange(j, b.len() as int));
    } else {
        assert(occurs_at(s, p, k) == occurs_at(b, p, j)) by {
            if k + p.len() <= s.len() {
                assert(s.subrange(k, k + p.len()) =~= b.subrange(j, j + p.len()));
            }
        }
        if occurs_at(b, p, j) {
            lemma_remove_shift(a, b, p, j + p.len());
        } else {
            lemma_remove_shift(a, b, p, j + 1);
            assert(s[k] == b[j]);
        }
    }
}

/// A pattern without blanks never runs into a part that starts with a blank.
pub open spec fn no_straddle(a: Seq<char>, b: Seq<char>, p: Seq<char>) -> bool {
    &&& b.len() > 0
    &&& b[0] == ' '
    &&& free_of(p, ' ')
}

proof fn lemma_straddle_absent(a: Seq<char>, b: Seq<char>, p: Seq<char>, k: int)
    requires
        no_straddle(a, b, p),
        0 <= k < a.len(),
        k + p.len() > a.len(),
    ensures
        !occurs_at(a + b, p, k),
{
    if occurs_at(a + b, p, k) {
        let s = a + b;
        assert(s.subrange(k, k + p.len())[a.len() - k] == s[a.len() as int]);
        assert(p[a.len() - k] == ' ');
    }
}

/// Removing `p` from `a + b` read from `from` within `a`.
proof fn lemma_remove_concat_from(a: Seq<char>, b: Seq<char>, p: Seq<char>, from: int)
    requires
        no_straddle(a, b, p),
        0 <= from <= a.len(),
    ensures
        remove_all_from(a + b, p, from) == remove_all_from(a, p, from) + remove_all(b, p),
    decreases a.len() - from,
{
    let s = a + b;
    if from == a.len() {
        lemma_remove_shift(a, b, p, 0);
        assert(remove_all_from(a, p, from) =~= Seq::<char>::empty()) by {
            assert(a.subrange(from, a.len() as int) =~= Seq::<char>::empty());
        }
        assert(Seq::<char>::empty() + remove_all(b, p) =~= remove_all(b, p));
    } else if p.len() == 0 {
        assert(s.subrange(from, s.len() as int) =~= a.subrange(from, a.len() as int) + b.subrange(0, b.len() as int));
        assert(remove_all(b, p) == b.subrange(0, b.len() as int));
    } else {
        if from + p.len() <= a.len() {
            assert(occurs_at(s, p, from) == occurs_at(a, p, from)) by {
                assert(s.subrange(from, from + p.len()) =~= a.subrange(from, from + p.len()));
            }
        } else {
            lemma_straddle_absent(a, b, p, from);
        }
        assert(s[from] == a[from]);
        if occurs_at(a, p, from) {
            lemma_remove_concat_from(a, b, p, from + p.len());
        } else {
            lemma_remove_concat_from(a, b, p, from + 1);
            assert(seq![a[from]] + remove_all_from(a, p, from + 1) + remove_all(b, p)
                =~= seq![a[from]] + (remove_all_from(a, p, from + 1) + remove_all(b, p)));
        }
    }
}

/// Removal splits at a boundary that no occurrence crosses.
pub proof fn lemma_remove_concat(a: Seq<char>, b: Seq<char>, p: Seq<char>)
    requires
        no_straddle(a, b, p),
    ensures
        remove_all(a + b, p) == remove_all(a, p) + remove_all(b, p),
{
    lemma_remove_concat_from(a, b, p, 0);
}

/// Containment splits at a boundary that no occurrence crosses.
pub proof fn lemma_contains_concat(a: Seq<char>, b: Seq<char>, p: Seq<char>)
    requires
        no_straddle(a, b, p),
    ensures
        contains(a + b, p) == (contains(a, p) || contains(b, p)),
{
    let s = a + b;
    if contains(s, p) {
        let k = choose|k: int| occurs_at(s, p, k);
        if k < a.len() {
            if k + p.len() > a.len() {
                lemma_straddle_absent(a, b, p, k);
            } else {
                assert(s.subrange(k, k + p.len()) =~= a.subrange(k, k + p.len()));
                assert(occurs_at(a, p, k));
            }
        } else {
            assert(s.subrange(k, k + p.len()) =~= b.subrange(k - a.len(), k - a.len() + p.len()));
            assert(occurs_at(b, p, k - a.len()));
        }
    }
    if contains(a, p) {
        let k = choose|k: int| occurs_at(a, p, k);
        assert(s.subrange(k, k + p.len()) =~= a.subrange(k, k + p.len()));
        assert(occurs_at(s, p, k));
    }
    if contains(b, p) {
        let k = choose|k: int| occurs_at(b, p, k);
        assert(s.subrange(a.len() + k, a.len() + k + p.len()) =~= b.subrange(k, k + p.len()));
        assert(occurs_at(s, p, a.len() + k));
    }
}

/// Every character of `s` is a non-blank.
pub open spec fn solid(s: Seq<char>) -> bool {
    forall|i: int| 0 <= i < s.len() ==> !is_ws(#[trigger] s[i])
}

/// Reading non-blank characters only extends the word being read.
pub proof fn lemma_words_state_plain(s: Seq<char>, w: Seq<char>)
    requires
        solid(w),
    ensures
        words_state(s + w) == (words_state(s).0, words_state(s).1 + w),
    decreases w.len(),
{
    if w.len() == 0 {
        assert(s + w =~= s);
        assert(words_state(s).1 + w =~= words_state(s).1);
    } else {
        lemma_words_state_plain(s, w.drop_last());
        assert((s + w).drop_last() =~= s + w.drop_last());
        assert((s + w).last() == w.last());
        assert(!is_ws(w[w.len() - 1]));
        assert(words_state(s).1 + w.drop_last() + seq![w.last()] =~= words_state(s).1 + w);
    }
}

/// The words and the word being read are non-empty and non-blank.
pub proof fn lemma_words_state_shape(s: Seq<char>)
    ensures
        forall|i: int| 0 <= i < words_state(s).0.len() ==> (#[trigger] words_state(s).0[i]).len() > 0
            && solid(words_state(s).0[i]),
        solid(words_state(s).1),
    decreases s.len(),
{
    if s.len() > 0 {
        lemma_words_state_shape(s.drop_last());
        let (ws, cur) = words_state(s.drop_last());
        if !is_ws(s.last()) {
            assert(solid(cur.push(s.last()))) by {
                assert forall|i: int| 0 <= i < cur.push(s.last()).len() implies !is_ws(#[trigger] cur.push(s.last())[i]) by {
                    if i < cur.len() {
                        assert(cur.push(s.last())[i] == cur[i]);
                    }
                }
            }
        } else if cur.len() > 0 {
            assert forall|i: int| 0 <= i < ws.push(cur).len() implies (#[trigger] ws.push(cur)[i]).len() > 0
                && solid(ws.push(cur)[i]) by {
                if i < ws.len() {
                    assert(ws.push(cur)[i] == ws[i]);
                }
            }
            assert(solid(Seq::<char>::empty()));
        }
    }
}

/// The words of a text are non-empty and non-blank.
pub proof fn lemma_words_shape(s: Seq<char>)
    ensures
        forall|i: int| 0 <= i < words(s).len() ==> (#[trigger] words(s)[i]).len() > 0 && solid(words(s)[i]),
{
    lemma_words_state_shape(s);
    let (ws, cur) = words_state(s);
    if cur.len() > 0 {
        assert forall|i: int| 0 <= i < ws.push(cur).len() implies (#[trigger] ws.push(cur)[i]).len() > 0
            && solid(ws.push(cur)[i]) by {
            if i < ws.len() {
                assert(ws.push(cur)[i] == ws[i]);
            }
        }
    }
}

proof fn lemma_words_state_join(ws: Seq<Seq<char>>)
    requires
        ws.len() > 0,
        forall|i: int| 0 <= i < ws.len() ==> (#[trigger] ws[i]).len() > 0 && solid(ws[i]),
    ensures
        words_state(join(ws, seq![' '])) == (ws.drop_last(), ws.last()),
    decreases ws.len(),
{
    let e = Seq::<char>::empty();
    if ws.len() == 1 {
        lemma_words_state_plain(e, ws[0]);
        assert(e + ws[0] =~= ws[0]);
        assert(words_state(e) == (Seq::<Seq<char>>::empty(), e));
        assert(e + ws[0] =~= ws[0]);
        assert(ws.drop_last() =~= Seq::<Seq<char>>::empty());
    } else {
        let t = ws.drop_last();
        assert forall|i: int| 0 <= i < t.len() implies (#[trigger] t[i]).len() > 0 && solid(t[i]) by {
            assert(t[i] == ws[i]);
        }
        lemma_words_state_join(t);
        let j = join(t, seq![' ']);
        let js = j + seq![' '];
        assert(js.drop_last() =~= j);
        assert(is_ws(js.last()));
        assert(t.last() == ws[ws.len() - 2]);
        assert(words_state(js) == (t.drop_last().push(t.last()), e));
        assert(t.drop_last().push(t.last()) =~= t);
        assert(ws.last() == ws[ws.len() - 1]);
        lemma_words_state_plain(js, ws.last());
        assert(e + ws.last() =~= ws.last());
        assert(join(ws, seq![' ']) =~= js + ws.last());
    }
}

/// Splitting words that were joined by single blanks gives them back.
pub proof fn lemma_words_join(ws: Seq<Seq<char>>)
    requires
        forall|i: int| 0 <= i < ws.len() ==> (#[trigger] ws[i]).len() > 0 && solid(ws[i]),
    ensures
        words(join(ws, seq![' '])) == ws,
{
    if ws.len() == 0 {
        assert(words_state(Seq::<char>::empty()) == (Seq::<Seq<char>>::empty(), Seq::<char>::empty()));
    } else {
        lemma_words_state_join(ws);
        assert(ws.drop_last().push(ws.last()) =~= ws);
    }
}

// ---------------------------------------------------------------------------
// Executable operations
// ---------------------------------------------------------------------------

/// The characters `s[from..to]`.
pub fn slice_chars(s: &[char], from: usize, to: usize) -> (r: Vec<char>)
    requires
        from <= to <= s@.len(),
    ensures
        r@ == s@.subrange(from as int, to as int),
{
    let mut r: Vec<char> = Vec::new();
    let mut i: usize = from;
    while i < to
        invariant
            from <= i <= to <= s@.len(),
            r@ == s@.subrange(from as int, i as int),
        decreases to - i,
    {
        r.push(s[i]);
        i = i + 1;
    }
    r
}

/// `s` with white space removed at both ends.
pub fn trim_chars(s: &[char]) -> (r: Vec<char>)
    ensures
        r@ == trim(s@),
{
    let mut a: usize = 0;
    while a < s.len() && char_is_whitespace(s[a])
        invariant
            a <= s@.len(),
            forall|k: int| 0 <= k < a ==> is_ws(#[trigger] s@[k]),
        decreases s.len() - a,
    {
        a = a + 1;
    }
    proof {
        lemma_trim_start_skip(s@, a as int);
        if a < s@.len() {
            assert(!is_ws(s@.skip(a as int)[0]));
        }
    }
    let mut b: usize = s.len();
    while b > a && char_is_whitespace(s[b - 1])
        invariant
            a <= b <= s@.len(),
            forall|k: int| b <= k < s@.len() ==> is_ws(#[trigger] s@[k]),
        decreases b,
    {
        b = b - 1;
    }
    proof {
        let t = s@.skip(a as int);
        assert(trim_start(t) == t);
        assert forall|k: int| (b - a) <= k < t.len() implies is_ws(#[trigger] t[k]) by {
            assert(t[k] == s@[k + a]);
        }
        lemma_trim_end_take(t, (b - a) as int);
        assert(t.take((b - a) as int) =~= s@.subrange(a as int, b as int));
        if b > a {
            assert(t.take((b - a) as int).last() == s@[b - 1]);
        }
    }
    slice_chars(s, a, b)
}

/// `str::trim_end`: trailing white space removed.
pub fn trim_end_chars(s: &[char]) -> (r: Vec<char>)
    ensures
        r@ == trim_end(s@),
{
    let mut b: usize = s.len();
    while b > 0 && char_is_whitespace(s[b - 1])
        invariant
            b <= s@.len(),
            forall|k: int| b <= k < s@.len() ==> is_ws(#[trigger] s@[k]),
        decreases b,
    {
        b = b - 1;
    }
    proof {
        lemma_trim_end_take(s@, b as int);
        assert(s@.take(b as int) =~= s@.subrange(0, b as int));
        if b > 0 {
            assert(s@.take(b as int).last() == s@[b - 1]);
        }
    }
    slice_chars(s, 0, b)
}

/// `str::trim` on a string.
pub fn trim_str(s: &str) -> (r: String)
    ensures
        r@ == trim(s@),
{
    let v = chars_of(s);
    let t = trim_chars(v.as_slice());
    string_of(t.as_slice())
}

/// `str::split_whitespace`, collected.
pub fn split_words(s: &[char]) -> (r: Vec<Vec<char>>)
    ensures
        views(r@) == words(s@),
{
    let mut ws: Vec<Vec<char>> = Vec::new();
    let mut cur: Vec<char> = Vec::new();
    let mut i: usize = 0;
    while i < s.len()
        invariant
            i <= s@.len(),
            (views(ws@), cur@) == words_state(s@.take(i as int)),
        decreases s.len() - i,
    {
        let c = s[i];
        proof {
            assert(s@.take(i + 1).drop_last() =~= s@.take(i as int));
        }
        if char_is_whitespace(c) {
            if cur.len() > 0 {
                let done = cur;
                ws.push(done);
                cur = Vec::new();
                proof {
                    assert(views(ws@) =~= views(ws@.drop_last()).push(done@));
                }
            }
        } else {
            cur.push(c);
        }
        i = i + 1;
    }
    proof {
        assert(s@.take(s@.len() as int) =~= s@);
    }
    if cur.len() > 0 {
        let last = cur;
        ws.push(last);
        proof {
            assert(views(ws@) =~= views(ws@.drop_last()).push(last@));
        }
    }
    ws
}

/// `str::lines`, collected.
pub fn split_lines(s: &[char]) -> (r: Vec<Vec<char>>)
    ensures
        views(r@) == lines(s@),
{
    let mut ls: Vec<Vec<char>> = Vec::new();
    let mut cur: Vec<char> = Vec::new();
    let mut i: usize = 0;
    while i < s.len()
        invariant
            i <= s@.len(),
            (views(ls@), cur@) == lines_state(s@.take(i as int)),
        decreases s.len() - i,
    {
        let c = s[i];
        proof {
            assert(s@.take(i + 1).drop_last() =~= s@.take(i as int));
        }
        if c == '\n' {
            let mut done = cur;
            if done.len() > 0 && done[done.len() - 1] == '\r' {
                done.pop();
            }
            let ghost before = views(ls@);
            ls.push(done);
            cur = Vec::new();
            proof {
                assert(views(ls@) =~= before.push(ls@.last()@));
            }
        } else {
            cur.push(c);
        }
        i = i + 1;
    }
    proof {
        assert(s@.take(s@.len() as int) =~= s@);
    }
    if cur.len() > 0 {
        let last = cur;
        let ghost before = views(ls@);
        ls.push(last);
        proof {
            assert(views(ls@) =~= before.push(last@));
        }
    }
    ls
}

/// Appends the characters `s` to `out`.
pub fn append_chars(out: &mut Vec<char>, s: &[char])
    ensures
        final(out)@ == old(out)@ + s@,
{
    let mut k: usize = 0;
    while k < s.len()
        invariant
            k <= s@.len(),
            out@ == old(out)@ + s@.take(k as int),
        decreases s.len() - k,
    {
        out.push(s[k]);
        k = k + 1;
        proof {
            assert(s@.take(k as int) =~= s@.take(k - 1).push(s@[k - 1]));
        }
    }
    proof {
        assert(s@.take(s@.len() as int) =~= s@);
    }
}

/// `str::split_once(c)`.
pub fn split_once_chars(s: &[char], c: char) -> (r: Option<(Vec<char>, Vec<char>)>)
    ensures
        match r {
            Some((a, b)) => split_once(s@, c) == Some((a@, b@)),
            None => split_once(s@, c) is None,
        },
{
    let mut i: usize = 0;
    proof {
        assert(s@.skip(0) =~= s@);
    }
    while i < s.len()
        invariant
            i <= s@.len(),
            first_index(s@, c) == (match first_index(s@.skip(i as int), c) {
                Some(k) => Some(k + i),
                None => None,
            }),
        decreases s.len() - i,
    {
        proof {
            assert(s@.skip(i as int).drop_first() =~= s@.skip(i + 1));
            assert(s@.skip(i as int)[0] == s@[i as int]);
        }
        if s[i] == c {
            let a = slice_chars(s, 0, i);
            let b = slice_chars(s, i + 1, s.len());
            proof {
                assert(a@ =~= s@.take(i as int));
                assert(b@ =~= s@.skip(i + 1));
            }
            return Some((a, b));
        }
        i = i + 1;
    }
    None
}

/// The pieces joined with the separator characters `sep`.
pub fn join_chars(ws: &Vec<Vec<char>>, sep: &[char]) -> (r: Vec<char>)
    ensures
        r@ == join(views(ws@), sep@),
{
    let mut r: Vec<char> = Vec::new();
    let mut i: usize = 0;
    while i < ws.len()
        invariant
            i <= ws@.len(),
            r@ == join(views(ws@).take(i as int), sep@),
        decreases ws.len() - i,
    {
        proof {
            assert(views(ws@).take(i + 1).drop_last() =~= views(ws@).take(i as int));
        }
        if i > 0 {
            let mut k: usize = 0;
            let ghost before = r@;
            while k < sep.len()
                invariant
                    k <= sep@.len(),
                    r@ == before + sep@.take(k as int),
                decreases sep.len() - k,
            {
                r.push(sep[k]);
                k = k + 1;
                proof {
                    assert(sep@.take(k as int) =~= sep@.take(k - 1).push(sep@[k - 1]));
                }
            }
            assert(sep@.take(sep@.len() as int) =~= sep@);
        }
        let w = &ws[i];
        let ghost before = r@;
        let mut k: usize = 0;
        while k < w.len()
            invariant
                k <= w@.len(),
                r@ == before + w@.take(k as int),
            decreases w.len() - k,
        {
            r.push(w[k]);
            k = k + 1;
            proof {
                assert(w@.take(k as int) =~= w@.take(k - 1).push(w@[k - 1]));
            }
        }
        proof {
            assert(w@.take(w@.len() as int) =~= w@);
            assert(views(ws@).take(i + 1).last() == w@);
            if i == 0 {
                assert(r@ =~= w@);
            }
        }
        i = i + 1;
    }
    proof {
        assert(views(ws@).take(ws@.len() as int) =~= views(ws@));
    }
    r
}

/// Whether `p` occurs in `s` at position `i`.
pub fn occurs_at_exec(s: &[char], p: &[char], i: usize) -> (r: bool)
    ensures
        r == occurs_at(s@, p@, i as int),
{
    if i > s.len() || p.len() > s.len() - i {
        return false;
    }
    let mut k: usize = 0;
    while k < p.len()
        invariant
            i <= s@.len(),
            i + p@.len() <= s@.len(),
            s@.len() == s.len(),
            k <= p@.len(),
            forall|j: int| 0 <= j < k ==> s@[i + j] == p@[j],
        decreases p.len() - k,
    {
        if s[i + k] != p[k] {
            proof {
                assert(s@.subrange(i as int, i + p@.len())[k as int] != p@[k as int]);
            }
            return false;
        }
        k = k + 1;
    }
    proof {
        assert(s@.subrange(i as int, i + p@.len()) =~= p@);
    }
    true
}

/// `str::starts_with`.
pub fn starts_with_chars(s: &[char], p: &[char]) -> (r: bool)
    ensures
        r == starts_with(s@, p@),
{
    occurs_at_exec(s, p, 0)
}

/// `str::contains`.
pub fn contains_chars(s: &[char], p: &[char]) -> (r: bool)
    ensures
        r == contains(s@, p@),
{
    if p.len() > s.len() {
        proof {
            assert forall|i: int| !occurs_at(s@, p@, i) by {}
        }
        return false;
    }
    let last = s.len() - p.len();
    let mut i: usize = 0;
    while i < last
        invariant
            p@.len() <= s@.len(),
            last == s@.len() - p@.len(),
            i <= last,
            forall|j: int| 0 <= j < i ==> !occurs_at(s@, p@, j),
        decreases last - i,
    {
        if occurs_at_exec(s, p, i) {
            return true;
        }
        i = i + 1;
    }
    if occurs_at_exec(s, p, last) {
        return true;
    }
    proof {
        assert forall|j: int| !occurs_at(s@, p@, j) by {
            if 0 <= j < last {
            }
        }
    }
    false
}

/// `s.replace(p, "")`: every occurrence of `p` deleted, left to right.
pub fn remove_all_chars(s: &[char], p: &[char]) -> (r: Vec<char>)
    ensures
        r@ == remove_all(s@, p@),
{
    let mut r: Vec<char> = Vec::new();
    let mut i: usize = 0;
    while i < s.len()
        invariant
            i <= s@.len(),
            r@ + remove_all_from(s@, p@, i as int) == remove_all(s@, p@),
        decreases s.len() - i,
    {
        if p.len() > 0 && occurs_at_exec(s, p, i) {
            i = i + p.len();
        } else {
            if p.len() == 0 {
                proof {
                    assert(remove_all_from(s@, p@, i as int) =~= s@.subrange(i as int, s@.len() as int));
                    assert(remove_all_from(s@, p@, i + 1) =~= s@.subrange(i + 1, s@.len() as int));
                    assert(s@.subrange(i as int, s@.len() as int) =~= seq![s@[i as int]] + s@.subrange(i + 1, s@.len() as int));
                }
            }
            let ghost before = r@;
            r.push(s[i]);
            proof {
                assert(r@ =~= before + seq![s@[i as int]]);
                assert(before + remove_all_from(s@, p@, i as int) == remove_all(s@, p@));
                assert(r@ + remove_all_from(s@, p@, i + 1) =~= before + (seq![s@[i as int]] + remove_all_from(s@, p@, i + 1)));
            }
            i = i + 1;
        }
    }
    proof {
        assert(remove_all_from(s@, p@, i as int) =~= Seq::<char>::empty());
        assert(r@ + Seq::<char>::empty() =~= r@);
    }
    r
}

/// `char::to_ascii_lowercase`.
pub fn ascii_lower_exec(c: char) -> (r: char)
    ensures
        r == ascii_lower(c),
{
    if 'A' <= c && c <= 'Z' {
        let u: u8 = ((c as u32) + 32) as u8;
        u as char
    } else {
        c
    }
}

/// `str::eq_ignore_ascii_case`.
pub fn eq_ignore_ascii_case_exec(a: &[char], b: &[char]) -> (r: bool)
    ensures
        r == eq_ignore_ascii_case(a@, b@),
{
    if a.len() != b.len() {
        return false;
    }
    let mut i: usize = 0;
    while i < a.len()
        invariant
            a@.len() == b@.len(),
            i <= a@.len(),
            forall|k: int| 0 <= k < i ==> ascii_lower(#[trigger] a@[k]) == ascii_lower(b@[k]),
        decreases a.len() - i,
    {
        if ascii_lower_exec(a[i]) != ascii_lower_exec(b[i]) {
            return false;
        }
        i = i + 1;
    }
    true
}

} // verus!
