//! Ordering of names: the lexicographic order of strings (the order of
//! `Ord for str`, which compares UTF-8 bytes and so agrees with comparing
//! code points), and a stable sort of picked entries by a rank and a name.
use vstd::prelude::*;
use crate::text::chars_of;
use crate::numbering::string_views;

verus! {

/// `a` comes strictly before `b` in the lexicographic order of code points.
pub open spec fn lex_lt(a: Seq<char>, b: Seq<char>) -> bool
    decreases a.len(),
{
    if a.len() == 0 {
        b.len() > 0
    } else if b.len() == 0 {
        false
    } else if a[0] != b[0] {
        a[0] < b[0]
    } else {
        lex_lt(a.drop_first(), b.drop_first())
    }
}

/// The strict order is irreflexive and asymmetric.
pub proof fn lemma_lex_asym(a: Seq<char>, b: Seq<char>)
    ensures
        !(lex_lt(a, b) && lex_lt(b, a)),
        !lex_lt(a, a),
    decreases a.len(),
{
    if a.len() > 0 && b.len() > 0 && a[0] == b[0] {
        lemma_lex_asym(a.drop_first(), b.drop_first());
    }
    if a.len() > 0 {
        lemma_lex_asym(a.drop_first(), a.drop_first());
    }
}

/// Two different sequences are ordered one way or the other.
pub proof fn lemma_lex_total(a: Seq<char>, b: Seq<char>)
    ensures
        a != b ==> lex_lt(a, b) || lex_lt(b, a),
    decreases a.len(),
{
    if a.len() > 0 && b.len() > 0 && a[0] == b[0] {
        lemma_lex_total(a.drop_first(), b.drop_first());
        if a.drop_first() == b.drop_first() {
            assert(a =~= seq![a[0]] + a.drop_first());
            assert(b =~= seq![b[0]] + b.drop_first());
        }
    } else if a.len() == 0 && b.len() == 0 {
        assert(a =~= b);
    }
}

/// The strict order is transitive.
pub proof fn lemma_lex_trans(a: Seq<char>, b: Seq<char>, c: Seq<char>)
    requires
        lex_lt(a, b),
        lex_lt(b, c),
    ensures
        lex_lt(a, c),
    decreases a.len(),
{
    if a.len() > 0 && b.len() > 0 && c.len() > 0 && a[0] == b[0] && b[0] == c[0] {
        lemma_lex_trans(a.drop_first(), b.drop_first(), c.drop_first());
    }
}

/// Compare two character slices: `a` strictly before `b`.
pub fn lex_less(a: &[char], b: &[char]) -> (r: bool)
    ensures
        r == lex_lt(a@, b@),
{
    let mut i: usize = 0;
    proof {
        assert(a@.skip(0) =~= a@);
        assert(b@.skip(0) =~= b@);
    }
    while i < a.len() && i < b.len()
        invariant
            i <= a@.len(),
            i <= b@.len(),
            a@.take(i as int) == b@.take(i as int),
            lex_lt(a@, b@) == lex_lt(a@.skip(i as int), b@.skip(i as int)),
        decreases a.len() - i,
    {
        if a[i] != b[i] {
            proof {
                assert(a@.skip(i as int)[0] == a@[i as int]);
                assert(b@.skip(i as int)[0] == b@[i as int]);
            }
            return a[i] < b[i];
        }
        proof {
            assert(a@.skip(i as int).drop_first() =~= a@.skip(i + 1));
            assert(b@.skip(i as int).drop_first() =~= b@.skip(i + 1));
            assert(a@.take(i + 1) =~= a@.take(i as int).push(a@[i as int]));
            assert(b@.take(i + 1) =~= b@.take(i as int).push(b@[i as int]));
        }
        i = i + 1;
    }
    i < b.len()
}

/// Entry `x` comes strictly before entry `y` by (rank, name).
pub open spec fn key_lt(ranks: Seq<u8>, names: Seq<Seq<char>>, x: int, y: int) -> bool {
    ranks[x] < ranks[y] || (ranks[x] == ranks[y] && lex_lt(names[x], names[y]))
}

/// The indices `r` list, without repetition, exactly the picked entries.
pub open spec fn picks_exactly(r: Seq<usize>, pick: Seq<bool>) -> bool {
    &&& r.no_duplicates()
    &&& forall|k: int| 0 <= k < r.len() ==> (#[trigger] r[k] as int) < pick.len() && pick[r[k] as int]
    &&& forall|x: int| 0 <= x < pick.len() && #[trigger] pick[x] ==> r.contains(x as usize)
}

/// The indices `r` are in (rank, name) order.
pub open spec fn sorted_by_key(r: Seq<usize>, ranks: Seq<u8>, names: Seq<Seq<char>>) -> bool {
    forall|a: int, b: int| 0 <= a < b < r.len() ==> !key_lt(ranks, names, #[trigger] r[b] as int, #[trigger] r[a] as int)
}

proof fn lemma_key_trans(ranks: Seq<u8>, names: Seq<Seq<char>>, x: int, y: int, z: int)
    requires
        !key_lt(ranks, names, y, x),
        !key_lt(ranks, names, z, y),
    ensures
        !key_lt(ranks, names, z, x),
{
    if key_lt(ranks, names, z, x) {
        if ranks[x] == ranks[y] && ranks[y] == ranks[z] {
            lemma_lex_total(names[x], names[y]);
            lemma_lex_total(names[y], names[z]);
            if names[x] != names[y] && names[y] != names[z] {
                lemma_lex_trans(names[z], names[x], names[y]);
            }
        }
    }
}

/// Inserting a picked index `i` at a position `p` that follows every entry
/// not after it and precedes every entry after it keeps the list sorted and
/// duplicate-free.
proof fn lemma_insert_keeps_order(
    before: Seq<usize>,
    after: Seq<usize>,
    p: int,
    i: usize,
    ranks: Seq<u8>,
    nv: Seq<Seq<char>>,
    pick: Seq<bool>,
)
    requires
        0 <= p <= before.len(),
        after == before.insert(p, i),
        (i as int) < pick.len(),
        pick[i as int],
        before.no_duplicates(),
        forall|k: int| 0 <= k < before.len() ==> (#[trigger] before[k] as int) < i && pick[before[k] as int],
        forall|x: int| 0 <= x < i && #[trigger] pick[x] ==> before.contains(x as usize),
        sorted_by_key(before, ranks, nv),
        p > 0 ==> !key_lt(ranks, nv, i as int, before[p - 1] as int),
        forall|k: int| p <= k < before.len() ==> key_lt(ranks, nv, i as int, #[trigger] before[k] as int),
    ensures
        after.no_duplicates(),
        forall|k: int| 0 <= k < after.len() ==> (#[trigger] after[k] as int) < i + 1 && pick[after[k] as int],
        forall|x: int| 0 <= x < i + 1 && #[trigger] pick[x] ==> after.contains(x as usize),
        sorted_by_key(after, ranks, nv),
{
    assert(after =~= before.subrange(0, p).push(i) + before.subrange(p, before.len() as int));
    assert forall|k: int| 0 <= k < after.len() implies (#[trigger] after[k] as int) < i + 1 && pick[after[k] as int] by {
        if k < p {
            assert(after[k] == before[k]);
        } else if k > p {
            assert(after[k] == before[k - 1]);
        }
    }
    assert forall|x: int| 0 <= x < i + 1 && #[trigger] pick[x] implies after.contains(x as usize) by {
        if x == i {
            assert(after[p] == i);
        } else {
            let k = choose|k: int| 0 <= k < before.len() && before[k] == x as usize;
            if k < p {
                assert(after[k] == before[k]);
            } else {
                assert(after[k + 1] == before[k]);
            }
        }
    }
    assert forall|a: int, b: int| 0 <= a < b < after.len() implies after[a] != after[b] by {
        if a < p && b < p {
            assert(after[a] == before[a] && after[b] == before[b]);
        } else if a < p && b == p {
            assert(after[a] == before[a]);
        } else if a < p {
            assert(after[a] == before[a] && after[b] == before[b - 1]);
        } else if a == p {
            assert(after[b] == before[b - 1]);
        } else {
            assert(after[a] == before[a - 1] && after[b] == before[b - 1]);
        }
    }
    assert forall|a: int, b: int| 0 <= a < b < after.len() implies !key_lt(
        ranks,
        nv,
        #[trigger] after[b] as int,
        #[trigger] after[a] as int,
    ) by {
        if a < p && b < p {
            assert(after[a] == before[a] && after[b] == before[b]);
        } else if a < p && b == p {
            assert(after[a] == before[a]);
            if a < p - 1 {
                assert(!key_lt(ranks, nv, before[p - 1] as int, before[a] as int));
                lemma_key_trans(ranks, nv, before[a] as int, before[p - 1] as int, i as int);
            }
        } else if a < p {
            assert(after[a] == before[a] && after[b] == before[b - 1]);
        } else if a == p {
            assert(after[b] == before[b - 1]);
            assert(key_lt(ranks, nv, i as int, before[b - 1] as int));
            let y = before[b - 1] as int;
            if ranks[i as int] == ranks[y] {
                lemma_lex_asym(nv[i as int], nv[y]);
            }
        } else {
            assert(after[a] == before[a - 1] && after[b] == before[b - 1]);
        }
    }
}

/// The picked entries, in the order of a stable sort by (rank, name).
pub fn sort_order(ranks: &[u8], names: &[String], pick: &[bool]) -> (r: Vec<usize>)
    requires
        ranks@.len() == names@.len(),
        pick@.len() == names@.len(),
    ensures
        picks_exactly(r@, pick@),
        sorted_by_key(r@, ranks@, string_views(names@)),
{
    let ghost nv = string_views(names@);
    let n = names.len();
    let mut cs: Vec<Vec<char>> = Vec::new();
    let mut i: usize = 0;
    while i < n
        invariant
            n == names@.len(),
            i <= n,
            cs@.len() == i,
            nv == string_views(names@),
            forall|k: int| 0 <= k < i ==> (#[trigger] cs@[k])@ == nv[k],
        decreases n - i,
    {
        cs.push(chars_of(names[i].as_str()));
        i = i + 1;
    }
    let mut out: Vec<usize> = Vec::new();
    let mut i: usize = 0;
    while i < n
        invariant
            n == names@.len(),
            n == ranks@.len(),
            n == pick@.len(),
            i <= n,
            cs@.len() == n,
            nv == string_views(names@),
            forall|k: int| 0 <= k < n ==> (#[trigger] cs@[k])@ == nv[k],
            out@.no_duplicates(),
            forall|k: int| 0 <= k < out@.len() ==> (#[trigger] out@[k] as int) < i && pick@[out@[k] as int],
            forall|x: int| 0 <= x < i && #[trigger] pick@[x] ==> out@.contains(x as usize),
            sorted_by_key(out@, ranks@, nv),
        decreases n - i,
    {
        if pick[i] {
            let mut p: usize = out.len();
            while p > 0 && (ranks[i] < ranks[out[p - 1]] || (ranks[i] == ranks[out[p - 1]] && lex_less(
                cs[i].as_slice(),
                cs[out[p - 1]].as_slice(),
            )))
                invariant
                    n == names@.len(),
                    n == ranks@.len(),
                    i < n,
                    cs@.len() == n,
                    forall|k: int| 0 <= k < n ==> (#[trigger] cs@[k])@ == nv[k],
                    p <= out@.len(),
                    forall|k: int| 0 <= k < out@.len() ==> (#[trigger] out@[k] as int) < i,
                    forall|k: int| p <= k < out@.len() ==> key_lt(ranks@, nv, i as int, #[trigger] out@[k] as int),
                decreases p,
            {
                p = p - 1;
            }
            let ghost before = out@;
            proof {
                if p > 0 {
                    assert(!key_lt(ranks@, nv, i as int, before[p - 1] as int));
                }
            }
            out.insert(p, i);
            proof {
                lemma_insert_keeps_order(before, out@, p as int, i, ranks@, nv, pick@);
            }
        }
        i = i + 1;
    }
    out
}

} // verus!
