//! Numbered directories (`NN_name`): parsing their names, ordering them,
//! picking the next free number and sanitizing the names users type.
use vstd::prelude::*;
use crate::text::{
    alphanumeric, char_is_alphanumeric, chars_of, join, join_chars, lowercase, split_words, starts_with,
    starts_with_chars, str_to_lowercase, string_of, slice_chars, words,
};

verus! {

/// A parsed numbered directory entry (e.g. "03_project-ideas").
pub struct NumberedDir {
    pub number: u8,
    pub name: String,
    pub full_name: String,
}

/// The mathematical content of a `NumberedDir`.
pub struct NumberedDirView {
    pub number: u8,
    pub name: Seq<char>,
    pub full_name: Seq<char>,
}

impl View for NumberedDir {
    type V = NumberedDirView;

    open spec fn view(&self) -> NumberedDirView {
        NumberedDirView { number: self.number, name: self.name@, full_name: self.full_name@ }
    }
}

impl Clone for NumberedDir {
    fn clone(&self) -> (r: Self)
        ensures
            r@ == self@,
    {
        NumberedDir { number: self.number, name: self.name.clone(), full_name: self.full_name.clone() }
    }
}

/// The views of a sequence of directories.
pub open spec fn dir_views(s: Seq<NumberedDir>) -> Seq<NumberedDirView> {
    s.map_values(|d: NumberedDir| d@)
}

/// A character that `sanitize_name` keeps.
pub open spec fn name_char(c: char) -> bool {
    alphanumeric(c) || c == '-'
}

/// The characters of `s` that `sanitize_name` keeps, in order.
pub open spec fn keep_name_chars(s: Seq<char>) -> Seq<char>
    decreases s.len(),
{
    if s.len() == 0 {
        s
    } else if name_char(s.last()) {
        keep_name_chars(s.drop_last()).push(s.last())
    } else {
        keep_name_chars(s.drop_last())
    }
}

/// `sanitize_name`: lower-cased, white-space runs collapsed to single
/// hyphens (dropping leading and trailing blanks), then every character that
/// is neither alphanumeric nor `-` removed.
pub open spec fn sanitized(s: Seq<char>) -> Seq<char> {
    keep_name_chars(join(words(lowercase(s)), seq!['-']))
}

/// An ASCII decimal digit.
pub open spec fn is_digit(c: char) -> bool {
    '0' <= c && c <= '9'
}

/// The value of an ASCII digit.
pub open spec fn digit_value(c: char) -> int {
    (c as int) - ('0' as int)
}

/// The number that two leading characters `NN` stand for: both ASCII digits.
pub open spec fn two_char_u8(a: char, b: char) -> Option<u8> {
    if is_digit(a) && is_digit(b) {
        Some((10 * digit_value(a) + digit_value(b)) as u8)
    } else {
        None
    }
}

/// The directory that a name like `03_project-ideas` stands for, if any: two
/// ASCII digits, then `_`, then the name (the `NN_name` pattern).
pub open spec fn parse_numbered(s: Seq<char>) -> Option<NumberedDirView> {
    if s.len() >= 3 && two_char_u8(s[0], s[1]) is Some && s[2] == '_' {
        Some(NumberedDirView { number: two_char_u8(s[0], s[1])->0, name: s.skip(3), full_name: s })
    } else {
        None
    }
}

/// Position at which a directory numbered `n` is inserted into a list sorted
/// by number so that equal numbers keep their order: after every entry whose
/// number is at most `n`.
pub open spec fn insert_pos(s: Seq<NumberedDirView>, n: u8) -> int
    decreases s.len(),
{
    if s.len() == 0 {
        0
    } else if s[0].number > n {
        0
    } else {
        1 + insert_pos(s.drop_first(), n)
    }
}

/// Stable sort by number (what `sort_by_key(|d| d.number)` produces).
pub open spec fn sort_by_number(s: Seq<NumberedDirView>) -> Seq<NumberedDirView>
    decreases s.len(),
{
    if s.len() == 0 {
        s
    } else {
        let sorted = sort_by_number(s.drop_last());
        sorted.insert(insert_pos(sorted, s.last().number), s.last())
    }
}

/// The directories that a list of entry names holds, in their given order.
pub open spec fn parsed_names(names: Seq<Seq<char>>) -> Seq<NumberedDirView>
    decreases names.len(),
{
    if names.len() == 0 {
        Seq::empty()
    } else {
        match parse_numbered(names.last()) {
            Some(d) => parsed_names(names.drop_last()).push(d),
            None => parsed_names(names.drop_last()),
        }
    }
}

/// The views of a vector of strings.
pub open spec fn string_views(v: Seq<String>) -> Seq<Seq<char>> {
    v.map_values(|s: String| s@)
}

/// Ordered by number.
pub open spec fn sorted_by_number(s: Seq<NumberedDirView>) -> bool {
    forall|i: int, j: int| 0 <= i <= j < s.len() ==> s[i].number <= s[j].number
}

/// Some directory in the list carries number `n`.
pub open spec fn number_taken(s: Seq<NumberedDirView>, n: int) -> bool {
    exists|i: int| 0 <= i < s.len() && s[i].number == n
}

/// The lowest number in 0..100 that no directory uses.
pub open spec fn lowest_free(s: Seq<NumberedDirView>, n: int) -> bool {
    0 <= n < 100 && !number_taken(s, n) && forall|m: int| 0 <= m < n ==> number_taken(s, m)
}

/// Lowercases, collapses whitespace to hyphens, and strips non-alphanumeric/hyphen chars.
pub fn sanitize_name(name: &str) -> (r: String)
    ensures
        r@ == sanitized(name@),
{
    let lower = str_to_lowercase(name);
    let chars = chars_of(lower.as_str());
    let ws = split_words(chars.as_slice());
    let sep = vec!['-'];
    let joined = join_chars(&ws, sep.as_slice());
    let mut out: Vec<char> = Vec::new();
    let mut i: usize = 0;
    while i < joined.len()
        invariant
            i <= joined@.len(),
            out@ == keep_name_chars(joined@.take(i as int)),
        decreases joined.len() - i,
    {
        let c = joined[i];
        proof {
            assert(joined@.take(i + 1).drop_last() =~= joined@.take(i as int));
        }
        if char_is_alphanumeric(c) || c == '-' {
            out.push(c);
        }
        i = i + 1;
    }
    proof {
        assert(joined@.take(joined@.len() as int) =~= joined@);
        assert(sep@ =~= seq!['-']);
    }
    string_of(out.as_slice())
}

/// Parses a directory name like "03_project-ideas" into a `NumberedDir`.
pub fn parse_numbered_name(name: &str) -> (r: Option<NumberedDir>)
    ensures
        match r {
            Some(d) => parse_numbered(name@) == Some(d@),
            None => parse_numbered(name@) is None,
        },
{
    let s = chars_of(name);
    if s.len() < 3 {
        return None;
    }
    let a = s[0];
    let b = s[1];
    let number: u8;
    if '0' <= a && a <= '9' && '0' <= b && b <= '9' {
        let da: u8 = ((a as u32) - ('0' as u32)) as u8;
        let db: u8 = ((b as u32) - ('0' as u32)) as u8;
        number = da * 10 + db;
    } else {
        return None;
    }
    if s[2] != '_' {
        return None;
    }
    let rest = slice_chars(s.as_slice(), 3, s.len());
    proof {
        assert(rest@ =~= s@.skip(3));
    }
    Some(NumberedDir { number, name: string_of(rest.as_slice()), full_name: string_of(s.as_slice()) })
}

/// Index of the first directory numbered above `n` in a list sorted by number.
fn insert_index(v: &Vec<NumberedDir>, n: u8) -> (r: usize)
    ensures
        r as int == insert_pos(dir_views(v@), n),
        r <= v@.len(),
{
    let mut i: usize = 0;
    proof {
        assert(dir_views(v@).skip(0) =~= dir_views(v@));
    }
    while i < v.len() && v[i].number <= n
        invariant
            i <= v@.len(),
            insert_pos(dir_views(v@), n) == i + insert_pos(dir_views(v@).skip(i as int), n),
        decreases v.len() - i,
    {
        proof {
            let t = dir_views(v@).skip(i as int);
            assert(t.drop_first() =~= dir_views(v@).skip(i + 1));
            assert(t[0] == v@[i as int]@);
        }
        i = i + 1;
    }
    proof {
        let t = dir_views(v@).skip(i as int);
        if i < v@.len() {
            assert(t[0] == v@[i as int]@);
        } else {
            assert(t.len() == 0);
        }
    }
    i
}

/// The numbered directories among the entry names of a directory, sorted by
/// number (stable, so equal numbers keep the order of the names).
pub fn collect_numbered_dirs(names: Vec<String>) -> (r: Vec<NumberedDir>)
    ensures
        dir_views(r@) == sort_by_number(parsed_names(string_views(names@))),
{
    let mut parsed: Vec<NumberedDir> = Vec::new();
    let mut i: usize = 0;
    while i < names.len()
        invariant
            i <= names@.len(),
            dir_views(parsed@) == parsed_names(string_views(names@).take(i as int)),
        decreases names.len() - i,
    {
        proof {
            assert(string_views(names@).take(i + 1).drop_last() =~= string_views(names@).take(i as int));
        }
        let p = parse_numbered_name(names[i].as_str());
        match p {
            Some(d) => {
                parsed.push(d);
                proof {
                    assert(dir_views(parsed@) =~= dir_views(parsed@.drop_last()).push(parsed@.last()@));
                }
            },
            None => {},
        }
        i = i + 1;
    }
    proof {
        assert(string_views(names@).take(names@.len() as int) =~= string_views(names@));
    }
    let ghost all = dir_views(parsed@);
    proof {
        assert(all.len() == parsed@.len());
        assert(parsed@.len() == parsed.len());
    }
    let mut sorted: Vec<NumberedDir> = Vec::new();
    let mut j: usize = 0;
    while parsed.len() > 0
        invariant
            j + parsed@.len() == all.len(),
            all.len() <= usize::MAX,
            dir_views(parsed@) == all.skip(j as int),
            dir_views(sorted@) == sort_by_number(all.take(j as int)),
        decreases parsed.len(),
    {
        let ghost old_parsed = dir_views(parsed@);
        proof {
            assert(old_parsed[0] == parsed@[0]@);
            assert(all.skip(j as int)[0] == all[j as int]);
        }
        let d = parsed.remove(0);
        let pos = insert_index(&sorted, d.number);
        proof {
            assert(all.take(j + 1).drop_last() =~= all.take(j as int));
            assert(all.take(j + 1).last() == d@);
            assert(dir_views(parsed@) =~= old_parsed.drop_first());
            assert(old_parsed.drop_first() =~= all.skip(j + 1));
        }
        let ghost before = dir_views(sorted@);
        sorted.insert(pos, d);
        proof {
            assert(dir_views(sorted@) =~= before.insert(pos as int, d@));
        }
        j = j + 1;
    }
    proof {
        assert(all.take(j as int) =~= all);
    }
    sorted
}

/// Returns the lowest unused number in 0..100, filling gaps first.
pub fn next_available_number(dirs: &[NumberedDir]) -> (r: Option<u8>)
    ensures
        match r {
            Some(n) => lowest_free(dir_views(dirs@), n as int),
            None => forall|m: int| 0 <= m < 100 ==> number_taken(dir_views(dirs@), m),
        },
{
    let mut n: u8 = 0;
    while n < 100
        invariant
            n <= 100,
            forall|m: int| 0 <= m < n ==> number_taken(dir_views(dirs@), m),
        decreases 100 - n,
    {
        let mut taken = false;
        let mut k: usize = 0;
        while k < dirs.len()
            invariant
                k <= dirs@.len(),
                taken == (exists|i: int| 0 <= i < k && dir_views(dirs@)[i].number == n),
            decreases dirs.len() - k,
        {
            proof {
                assert(dir_views(dirs@)[k as int] == dirs@[k as int]@);
            }
            if dirs[k].number == n {
                taken = true;
            }
            k = k + 1;
        }
        if !taken {
            return Some(n);
        }
        n = n + 1;
    }
    None
}

/// `d` is the directory that the query `q` picks among `s`: the first one
/// named exactly `q` if there is one, else the first whose name starts with
/// `q`.
pub open spec fn fuzzy_pick(s: Seq<NumberedDirView>, q: Seq<char>, d: NumberedDirView) -> bool {
    if exists|i: int| 0 <= i < s.len() && s[i].name == q {
        d.name == q && exists|i: int| 0 <= i < s.len() && s[i] == d && forall|j: int| 0 <= j < i ==> s[j].name != q
    } else {
        exists|i: int| 0 <= i < s.len() && s[i] == d && starts_with(s[i].name, q)
            && forall|j: int| 0 <= j < i ==> !starts_with(s[j].name, q)
    }
}

/// A query picks at most one directory, and the one it picks is listed and
/// named by the query: exactly, when some directory is, else by a prefix.
pub proof fn law_fuzzy_pick_unique(s: Seq<NumberedDirView>, q: Seq<char>, d1: NumberedDirView, d2: NumberedDirView)
    requires
        fuzzy_pick(s, q, d1),
        fuzzy_pick(s, q, d2),
    ensures
        d1 == d2,
        s.contains(d1),
        starts_with(d1.name, q),
        (exists|i: int| 0 <= i < s.len() && s[i].name == q) ==> d1.name == q,
{
    if exists|i: int| 0 <= i < s.len() && s[i].name == q {
        let i1 = choose|i: int| 0 <= i < s.len() && s[i] == d1 && forall|j: int| 0 <= j < i ==> s[j].name != q;
        let i2 = choose|i: int| 0 <= i < s.len() && s[i] == d2 && forall|j: int| 0 <= j < i ==> s[j].name != q;
        if i1 < i2 {
            assert(s[i1].name == q);
        }
        if i2 < i1 {
            assert(s[i2].name == q);
        }
        assert(s[i1] == d1);
        assert(d1.name.subrange(0, q.len() as int) =~= q);
    } else {
        let i1 = choose|i: int| 0 <= i < s.len() && s[i] == d1 && starts_with(s[i].name, q)
            && forall|j: int| 0 <= j < i ==> !starts_with(s[j].name, q);
        let i2 = choose|i: int| 0 <= i < s.len() && s[i] == d2 && starts_with(s[i].name, q)
            && forall|j: int| 0 <= j < i ==> !starts_with(s[j].name, q);
        if i1 < i2 {
            assert(starts_with(s[i1].name, q));
        }
        if i2 < i1 {
            assert(starts_with(s[i2].name, q));
        }
        assert(s[i1] == d1);
    }
}

/// Finds a numbered dir whose name matches `query` (lower-cased) exactly, or
/// else the first one whose name starts with it.
pub fn fuzzy_match_dir(dirs: &[NumberedDir], query: &str) -> (r: Option<NumberedDir>)
    ensures
        match r {
            Some(d) => fuzzy_pick(dir_views(dirs@), lowercase(query@), d@),
            None => forall|i: int| 0 <= i < dirs@.len() ==> !starts_with(dir_views(dirs@)[i].name, lowercase(query@)),
        },
{
    let lower = str_to_lowercase(query);
    let q = chars_of(lower.as_str());
    let ghost s = dir_views(dirs@);
    let mut i: usize = 0;
    while i < dirs.len()
        invariant
            i <= dirs@.len(),
            s == dir_views(dirs@),
            q@ == lowercase(query@),
            forall|j: int| 0 <= j < i ==> s[j].name != q@,
        decreases dirs.len() - i,
    {
        proof {
            assert(s[i as int] == dirs@[i as int]@);
        }
        if dirs[i].name == string_of(q.as_slice()) {
            let d = dirs[i].clone();
            proof {
                assert(s[i as int] == d@);
            }
            return Some(d);
        }
        i = i + 1;
    }
    let mut k: usize = 0;
    while k < dirs.len()
        invariant
            k <= dirs@.len(),
            s == dir_views(dirs@),
            q@ == lowercase(query@),
            forall|j: int| 0 <= j < dirs@.len() ==> s[j].name != q@,
            forall|j: int| 0 <= j < k ==> !starts_with(s[j].name, q@),
        decreases dirs.len() - k,
    {
        proof {
            assert(s[k as int] == dirs@[k as int]@);
        }
        let name = chars_of(dirs[k].name.as_str());
        if starts_with_chars(name.as_slice(), q.as_slice()) {
            let d = dirs[k].clone();
            proof {
                assert(s[k as int] == d@);
                assert(!(exists|i: int| 0 <= i < s.len() && s[i].name == q@));
            }
            return Some(d);
        }
        k = k + 1;
    }
    proof {
        assert(!(exists|i: int| 0 <= i < s.len() && s[i].name == q@));
    }
    None
}

/// The name of a new numbered directory: the number on two digits, `_`, the name.
pub open spec fn numbered_dir_name_spec(n: u8, name: Seq<char>) -> Seq<char> {
    seq![((n / 10) as int + '0' as int) as char, ((n % 10) as int + '0' as int) as char, '_'] + name
}

/// `format!("{:02}_{}", number, name)` for a directory number below 100.
pub fn numbered_dir_name(n: u8, name: &str) -> (r: String)
    requires
        n < 100,
    ensures
        r@ == numbered_dir_name_spec(n, name@),
{
    let mut v: Vec<char> = Vec::new();
    let tens: u8 = n / 10 + 48;
    let ones: u8 = n % 10 + 48;
    v.push(tens as char);
    v.push(ones as char);
    v.push('_');
    let rest = chars_of(name);
    let mut i: usize = 0;
    while i < rest.len()
        invariant
            i <= rest@.len(),
            v@ == seq![(tens as char), (ones as char), '_'] + rest@.take(i as int),
        decreases rest.len() - i,
    {
        v.push(rest[i]);
        i = i + 1;
        proof {
            assert(rest@.take(i as int) =~= rest@.take(i - 1).push(rest@[i - 1]));
        }
    }
    proof {
        assert(rest@.take(rest@.len() as int) =~= rest@);
    }
    string_of(v.as_slice())
}

proof fn lemma_kept_chars(s: Seq<char>)
    ensures
        forall|i: int| 0 <= i < keep_name_chars(s).len() ==> name_char(#[trigger] keep_name_chars(s)[i]),
    decreases s.len(),
{
    if s.len() > 0 {
        lemma_kept_chars(s.drop_last());
        let p = keep_name_chars(s.drop_last());
        if name_char(s.last()) {
            assert forall|i: int| 0 <= i < p.push(s.last()).len() implies name_char(#[trigger] p.push(s.last())[i]) by {
                if i < p.len() {
                    assert(p.push(s.last())[i] == p[i]);
                }
            }
        }
    }
}

/// A sanitised name holds only alphanumeric characters and `-`.
pub proof fn law_sanitized_chars(s: Seq<char>)
    ensures
        forall|i: int| 0 <= i < sanitized(s).len() ==> name_char(#[trigger] sanitized(s)[i]),
{
    lemma_kept_chars(join(words(lowercase(s)), seq!['-']));
}

proof fn lemma_insert_pos(s: Seq<NumberedDirView>, n: u8)
    requires
        sorted_by_number(s),
    ensures
        0 <= insert_pos(s, n) <= s.len(),
        forall|i: int| 0 <= i < insert_pos(s, n) ==> (#[trigger] s[i]).number <= n,
        forall|i: int| insert_pos(s, n) <= i < s.len() ==> (#[trigger] s[i]).number > n,
    decreases s.len(),
{
    if s.len() > 0 && s[0].number <= n {
        let t = s.drop_first();
        assert(sorted_by_number(t)) by {
            assert forall|i: int, j: int| 0 <= i <= j < t.len() implies t[i].number <= t[j].number by {
                assert(t[i] == s[i + 1] && t[j] == s[j + 1]);
            }
        }
        lemma_insert_pos(t, n);
        assert forall|i: int| 0 <= i < insert_pos(s, n) implies (#[trigger] s[i]).number <= n by {
            if i > 0 {
                assert(s[i] == t[i - 1]);
            }
        }
        assert forall|i: int| insert_pos(s, n) <= i < s.len() implies (#[trigger] s[i]).number > n by {
            assert(s[i] == t[i - 1]);
        }
    } else if s.len() > 0 {
        assert forall|i: int| 0 <= i < s.len() implies (#[trigger] s[i]).number > n by {
            assert(s[0].number <= s[i].number);
        }
    }
}

/// Sorting by number gives the directories in number order, each as often
/// as before.
pub proof fn law_sorted_by_number(s: Seq<NumberedDirView>)
    ensures
        sorted_by_number(sort_by_number(s)),
        sort_by_number(s).to_multiset() == s.to_multiset(),
    decreases s.len(),
{
    broadcast use vstd::seq_lib::lemma_multiset_commutative;
    broadcast use vstd::seq_lib::group_to_multiset_ensures;
    broadcast use vstd::multiset::group_multiset_axioms;
    if s.len() > 0 {
        let t = sort_by_number(s.drop_last());
        law_sorted_by_number(s.drop_last());
        let d = s.last();
        let p = insert_pos(t, d.number);
        lemma_insert_pos(t, d.number);
        let r = t.insert(p, d);
        assert forall|i: int, j: int| 0 <= i <= j < r.len() implies r[i].number <= r[j].number by {
            if i < p && j < p {
                assert(r[i] == t[i] && r[j] == t[j]);
            } else if i < p && j == p {
                assert(r[i] == t[i]);
            } else if i < p {
                assert(r[i] == t[i] && r[j] == t[j - 1]);
            } else if i == p && j > p {
                assert(r[j] == t[j - 1]);
            } else if i > p {
                assert(r[i] == t[i - 1] && r[j] == t[j - 1]);
            }
        }
        let a = t.take(p);
        let b = t.skip(p);
        assert(r =~= a.push(d) + b);
        assert(t =~= a + b);
        assert(s =~= s.drop_last().push(d));
        assert(r.to_multiset() =~= a.to_multiset().insert(d).add(b.to_multiset()));
        assert(s.to_multiset() =~= s.drop_last().to_multiset().insert(d));
        assert(r.to_multiset() =~= s.to_multiset());
    }
}

} // verus!
