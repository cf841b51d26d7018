//! The reconcile pass over the home notes root: which local notes of each
//! mapped project get mirrored, where their links go, which dangling links
//! are pruned, and the report of what changed.
use vstd::prelude::*;
use crate::numbering::{dir_views, lowest_free, number_taken, numbered_dir_name_spec, string_views, NumberedDir, NumberedDirView};
use crate::paths::{file_name, file_name_of, path_join_spec};
use crate::project::{created_dir, law_home_dir_found_again, ensure_home_dir_for, home_dir_available, home_dir_choice_spec, mirror_file_to_home, mirror_link, HomeDirChoice};
use crate::text::chars_of;

verus! {

/// What a reconcile pass changed.
pub struct SyncReport {
    /// Symlinks created in the home root for notes that existed only locally.
    pub linked: Vec<String>,
    /// Broken symlinks removed from the home root.
    pub pruned: Vec<String>,
    /// Mapped projects whose path no longer exists on disk.
    pub missing_projects: Vec<String>,
}

impl SyncReport {
    /// A report of nothing changed.
    pub fn new() -> (r: Self)
        ensures
            r.linked@.len() == 0 && r.pruned@.len() == 0 && r.missing_projects@.len() == 0,
    {
        SyncReport { linked: Vec::new(), pruned: Vec::new(), missing_projects: Vec::new() }
    }

    /// Nothing was linked, pruned or found missing.
    pub fn is_clean(&self) -> (r: bool)
        ensures
            r == (self.linked@.len() == 0 && self.pruned@.len() == 0 && self.missing_projects@.len() == 0),
    {
        self.linked.len() == 0 && self.pruned.len() == 0 && self.missing_projects.len() == 0
    }
}

/// A top-level entry of a local store is mirrored unless it is hidden (its
/// name starts with `.`) or a symlink.
pub open spec fn mirrorable(name: Seq<char>, is_symlink: bool) -> bool {
    !(name.len() > 0 && name[0] == '.') && !is_symlink
}

/// Whether a local store entry is mirrored into the home root.
pub fn is_mirrorable_entry(name: &str, is_symlink: bool) -> (r: bool)
    ensures
        r == mirrorable(name@, is_symlink),
{
    let n = chars_of(name);
    let hidden = n.len() > 0 && n[0] == '.';
    !hidden && !is_symlink
}

/// A link in a numbered home directory is pruned when it is a symlink whose
/// target is gone.
pub fn should_prune(is_symlink: bool, target_exists: bool) -> (r: bool)
    ensures
        r == (is_symlink && !target_exists),
{
    is_symlink && !target_exists
}

/// What the reconcile pass does for one mapped project.
pub enum ProjectPlan {
    /// The project path is gone: report it.
    Missing,
    /// No local notes to mirror: leave it alone.
    Skip,
    /// Make sure the home directory exists, then link each source at its link path.
    Mirror { home: HomeDirChoice, links: Vec<(String, String)> },
}

/// The directory a home choice names.
pub open spec fn choice_dir(h: HomeDirChoice) -> Seq<char> {
    match h {
        HomeDirChoice::Existing(p) => p@,
        HomeDirChoice::Create(p) => p@,
    }
}

/// The (source, link) pairs of a plan, as character sequences.
pub open spec fn pair_views(links: Seq<(String, String)>) -> Seq<(Seq<char>, Seq<char>)> {
    links.map_values(|p: (String, String)| (p.0@, p.1@))
}

/// The links to make for `entries` in the home directory `dir`, in order,
/// when the paths in `present` already exist: an entry whose link path is
/// taken (already there, or made for an earlier entry) is skipped.
pub open spec fn link_plan(entries: Seq<Seq<char>>, dir: Seq<char>, present: Set<Seq<char>>) -> Seq<(Seq<char>, Seq<char>)>
    decreases entries.len(),
{
    if entries.len() == 0 {
        Seq::empty()
    } else {
        let l = mirror_link(entries[0], dir)->0;
        if present.contains(l) {
            link_plan(entries.drop_first(), dir, present)
        } else {
            seq![(entries[0], l)] + link_plan(entries.drop_first(), dir, present.insert(l))
        }
    }
}

/// The plan meets what the reconcile pass asks of it: a missing project is
/// reported, one without entries skipped, and otherwise the project's home
/// directory is chosen and every entry whose link path is not taken yet is
/// linked there.
pub open spec fn sync_plan_ok(
    name: Seq<char>,
    path_exists: bool,
    entries: Seq<String>,
    home_dirs: Seq<NumberedDir>,
    home_root: Seq<char>,
    present: Seq<String>,
    r: ProjectPlan,
) -> bool {
    &&& (!path_exists ==> r is Missing)
    &&& (path_exists && entries.len() == 0 ==> r is Skip)
    &&& (path_exists && entries.len() > 0 ==> (r matches ProjectPlan::Mirror { home, links } && {
            &&& home_dir_choice_spec(dir_views(home_dirs), home_root, name, home)
            &&& pair_views(links@) == link_plan(string_views(entries), choice_dir(home), string_views(present).to_set())
        }))
}

/// The (source, link) pairs a plan makes; none unless it mirrors.
pub open spec fn plan_pairs(p: ProjectPlan) -> Seq<(Seq<char>, Seq<char>)> {
    match p {
        ProjectPlan::Mirror { links, .. } => pair_views(links@),
        _ => Seq::empty(),
    }
}

/// Every entry's link path is taken once a plan has run: it was there
/// already or the plan makes it.
proof fn lemma_plan_covers(es: Seq<Seq<char>>, dir: Seq<char>, p: Set<Seq<char>>)
    ensures
        forall|k: int| 0 <= k < es.len() ==> #[trigger] p.union(planned_set(link_plan(es, dir, p))).contains(mirror_link(es[k], dir)->0),
    decreases es.len(),
{
    if es.len() > 0 {
        let l = mirror_link(es[0], dir)->0;
        let rest = es.drop_first();
        let q = if p.contains(l) { p } else { p.insert(l) };
        lemma_plan_covers(rest, dir, q);
        let whole = link_plan(es, dir, p);
        let tail = link_plan(rest, dir, q);
        assert(planned_set(tail).subset_of(planned_set(whole))) by {
            assert forall|x: Seq<char>| planned_set(tail).contains(x) implies planned_set(whole).contains(x) by {
                let k = choose|k: int| 0 <= k < tail.len() && (#[trigger] tail[k]).1 == x;
                if p.contains(l) {
                    assert(whole[k] == tail[k]);
                } else {
                    assert(whole[k + 1] == tail[k]);
                }
            }
        }
        if !p.contains(l) {
            assert(whole[0].1 == l);
            assert(planned_set(whole).contains(l));
        }
        assert forall|k: int| 0 <= k < es.len() implies #[trigger] p.union(planned_set(whole)).contains(mirror_link(es[k], dir)->0) by {
            if k > 0 {
                assert(es[k] == rest[k - 1]);
                assert(q.union(planned_set(tail)).contains(mirror_link(rest[k - 1], dir)->0));
            }
        }
    }
}

/// A plan over entries whose link paths are all taken links nothing.
proof fn lemma_plan_empty(es: Seq<Seq<char>>, dir: Seq<char>, p: Set<Seq<char>>)
    requires
        forall|k: int| 0 <= k < es.len() ==> #[trigger] p.contains(mirror_link(es[k], dir)->0),
    ensures
        link_plan(es, dir, p).len() == 0,
    decreases es.len(),
{
    if es.len() > 0 {
        let rest = es.drop_first();
        assert forall|k: int| 0 <= k < rest.len() implies #[trigger] p.contains(mirror_link(rest[k], dir)->0) by {
            assert(rest[k] == es[k + 1]);
        }
        assert(p.contains(mirror_link(es[0], dir)->0));
        lemma_plan_empty(rest, dir, p);
    }
}

/// The first directory named `project` is the only one of its kind.
proof fn lemma_first_named(d: Seq<NumberedDirView>, project: Seq<char>, i: int, j: int)
    requires
        0 <= i < d.len() && d[i].name == project && (forall|k: int| 0 <= k < i ==> d[k].name != project),
        0 <= j < d.len() && d[j].name == project && (forall|k: int| 0 <= k < j ==> d[k].name != project),
    ensures
        i == j,
{
}

/// There is one lowest free number.
proof fn lemma_lowest_unique(d: Seq<NumberedDirView>, a: int, b: int)
    requires
        lowest_free(d, a),
        lowest_free(d, b),
    ensures
        a == b,
{
    if a < b {
        assert(number_taken(d, a));
    }
    if b < a {
        assert(number_taken(d, b));
    }
}

/// The reconcile pass settles: run again once the first run's home directory
/// and links exist (and every path that was there still is), the plan keeps
/// the same home directory, now an existing one, and links nothing.
pub proof fn law_sync_settles(
    name: Seq<char>,
    entries: Seq<String>,
    home_dirs: Seq<NumberedDir>,
    home_root: Seq<char>,
    present: Seq<String>,
    p1: ProjectPlan,
    n: int,
    home_dirs2: Seq<NumberedDir>,
    present2: Seq<String>,
    p2: ProjectPlan,
)
    requires
        entries.len() > 0,
        sync_plan_ok(name, true, entries, home_dirs, home_root, present, p1),
        (exists|i: int| 0 <= i < home_dirs.len() && (#[trigger] dir_views(home_dirs)[i]).name == name)
            ==> dir_views(home_dirs2) == dir_views(home_dirs),
        !(exists|i: int| 0 <= i < home_dirs.len() && (#[trigger] dir_views(home_dirs)[i]).name == name)
            ==> lowest_free(dir_views(home_dirs), n) && dir_views(home_dirs2) == dir_views(home_dirs).push(created_dir(n, name)),
        forall|x: Seq<char>| string_views(present).contains(x) ==> #[trigger] string_views(present2).contains(x),
        forall|x: Seq<char>| planned_set(plan_pairs(p1)).contains(x) ==> #[trigger] string_views(present2).contains(x),
        sync_plan_ok(name, true, entries, home_dirs2, home_root, present2, p2),
    ensures
        p1 matches ProjectPlan::Mirror { home: h1, .. } && p2 matches ProjectPlan::Mirror { home: h2, links }
            && h2 is Existing && choice_dir(h2) == choice_dir(h1) && links@.len() == 0,
{
    let d = dir_views(home_dirs);
    let d2 = dir_views(home_dirs2);
    let es = string_views(entries);
    let (h1, l1) = match p1 {
        ProjectPlan::Mirror { home, links } => (home, links),
        _ => { assert(false); arbitrary() },
    };
    let (h2, l2) = match p2 {
        ProjectPlan::Mirror { home, links } => (home, links),
        _ => { assert(false); arbitrary() },
    };
    if exists|i: int| 0 <= i < d.len() && d[i].name == name {
        assert(exists|i: int| 0 <= i < home_dirs.len() && (#[trigger] dir_views(home_dirs)[i]).name == name);
        assert(d2 == d);
        let i1 = choose|i: int|
            0 <= i < d.len() && d[i].name == name && (forall|j: int| 0 <= j < i ==> d[j].name != name)
                && (h1 matches HomeDirChoice::Existing(p) && p@ == path_join_spec(home_root, d[i].full_name));
        let i2 = choose|i: int|
            0 <= i < d2.len() && d2[i].name == name && (forall|j: int| 0 <= j < i ==> d2[j].name != name)
                && (h2 matches HomeDirChoice::Existing(p) && p@ == path_join_spec(home_root, d2[i].full_name));
        lemma_first_named(d, name, i1, i2);
    } else {
        assert(!(exists|i: int| 0 <= i < home_dirs.len() && (#[trigger] dir_views(home_dirs)[i]).name == name));
        assert(lowest_free(d, n));
        let m = choose|m: int| lowest_free(d, m) && choice_dir(h1) == path_join_spec(
            home_root,
            numbered_dir_name_spec(m as u8, name),
        );
        lemma_lowest_unique(d, m, n);
        law_home_dir_found_again(d, home_root, name, n, h2);
    }
    let dir = choice_dir(h1);
    let p0 = string_views(present).to_set();
    let q = string_views(present2).to_set();
    lemma_plan_covers(es, dir, p0);
    assert forall|k: int| 0 <= k < es.len() implies #[trigger] q.contains(mirror_link(es[k], dir)->0) by {
        let x = mirror_link(es[k], dir)->0;
        assert(p0.union(planned_set(link_plan(es, dir, p0))).contains(x));
        if p0.contains(x) {
            assert(string_views(present).contains(x));
        } else {
            assert(planned_set(plan_pairs(p1)).contains(x));
        }
    }
    lemma_plan_empty(es, dir, q);
    assert(pair_views(l2@).len() == l2@.len());
}

/// Whether the path `l` is in `v`.
fn contains_string(v: &[String], l: &String) -> (r: bool)
    ensures
        r == string_views(v@).contains(l@),
{
    let mut i: usize = 0;
    while i < v.len()
        invariant
            i <= v@.len(),
            forall|k: int| 0 <= k < i ==> v@[k]@ != l@,
        decreases v.len() - i,
    {
        if v[i] == *l {
            proof {
                assert(string_views(v@)[i as int] == l@);
            }
            return true;
        }
        i = i + 1;
    }
    proof {
        assert forall|k: int| 0 <= k < string_views(v@).len() implies string_views(v@)[k] != l@ by {
            assert(string_views(v@)[k] == v@[k]@);
        }
    }
    false
}

/// Whether some planned pair already links at `l`.
fn link_planned(links: &Vec<(String, String)>, l: &String) -> (r: bool)
    ensures
        r == (exists|k: int| 0 <= k < links@.len() && (#[trigger] links@[k]).1@ == l@),
{
    let mut i: usize = 0;
    while i < links.len()
        invariant
            i <= links@.len(),
            forall|k: int| 0 <= k < i ==> (#[trigger] links@[k]).1@ != l@,
        decreases links.len() - i,
    {
        if links[i].1 == *l {
            return true;
        }
        i = i + 1;
    }
    false
}

/// The link paths of planned pairs.
pub open spec fn planned_set(links: Seq<(Seq<char>, Seq<char>)>) -> Set<Seq<char>> {
    Set::new(|l: Seq<char>| exists|k: int| 0 <= k < links.len() && (#[trigger] links[k]).1 == l)
}

/// The link to make for one note `source` in the home directory `home`, when
/// the paths in `present` already exist: `None` when its link path is taken
/// or the source has no file name.
pub fn link_to_make(source: &str, home: &str, present: &[String]) -> (r: Option<String>)
    ensures
        match r {
            Some(l) => mirror_link(source@, home@) == Some(l@) && !string_views(present@).contains(l@),
            None => match mirror_link(source@, home@) {
                Some(l) => string_views(present@).contains(l),
                None => true,
            },
        },
{
    match mirror_file_to_home(source, home) {
        Some(l) => {
            if contains_string(present, &l) {
                None
            } else {
                Some(l)
            }
        },
        None => None,
    }
}

/// The plan for a project named `name` whose path exists or not, with the
/// mirrorable entries of its stores, given the numbered directories of the
/// home root and the paths already there. Every entry path has a file name
/// (it comes from a directory listing), and the project has room for a home
/// directory when it has notes to mirror.
pub fn plan_project_sync(
    name: &str,
    path_exists: bool,
    entries: &[String],
    home_dirs: &[NumberedDir],
    home_root: &str,
    present: &[String],
) -> (r: ProjectPlan)
    requires
        forall|i: int| 0 <= i < entries@.len() ==> (#[trigger] file_name_of(entries@[i]@)) is Some,
        path_exists && entries@.len() > 0 ==> home_dir_available(dir_views(home_dirs@), name@),
    ensures
        sync_plan_ok(name@, path_exists, entries@, home_dirs@, home_root@, present@, r),
{
    if !path_exists {
        return ProjectPlan::Missing;
    }
    if entries.len() == 0 {
        return ProjectPlan::Skip;
    }
    let home = ensure_home_dir_for(home_dirs, home_root, name);
    let dir: String = match &home {
        HomeDirChoice::Existing(h) => h.clone(),
        HomeDirChoice::Create(h) => h.clone(),
    };
    let ghost es = string_views(entries@);
    let ghost p0 = string_views(present@).to_set();
    let mut links: Vec<(String, String)> = Vec::new();
    let mut i: usize = 0;
    proof {
        assert(es.skip(0) =~= es);
        assert(planned_set(pair_views(links@)) =~= Set::<Seq<char>>::empty());
        assert(p0.union(Set::<Seq<char>>::empty()) =~= p0);
        assert(pair_views(links@) =~= Seq::<(Seq<char>, Seq<char>)>::empty());
    }
    while i < entries.len()
        invariant
            i <= entries@.len(),
            es == string_views(entries@),
            p0 == string_views(present@).to_set(),
            forall|k: int| 0 <= k < entries@.len() ==> (#[trigger] file_name_of(entries@[k]@)) is Some,
            dir@ == choice_dir(home),
            link_plan(es, dir@, p0) == pair_views(links@) + link_plan(
                es.skip(i as int),
                dir@,
                p0.union(planned_set(pair_views(links@))),
            ),
        decreases entries.len() - i,
    {
        let ghost before = pair_views(links@);
        let ghost cur = p0.union(planned_set(before));
        proof {
            assert(file_name_of(entries@[i as int]@) is Some);
            assert(es.skip(i as int)[0] == entries@[i as int]@);
            assert(es.skip(i as int).drop_first() =~= es.skip(i + 1));
        }
        let link = mirror_file_to_home(entries[i].as_str(), dir.as_str());
        match link {
            Some(l) => {
                let in_present = contains_string(present, &l);
                let in_links = link_planned(&links, &l);
                let taken = in_present || in_links;
                proof {
                    assert(taken == cur.contains(l@)) by {
                        if exists|k: int| 0 <= k < links@.len() && (#[trigger] links@[k]).1@ == l@ {
                            let k = choose|k: int| 0 <= k < links@.len() && (#[trigger] links@[k]).1@ == l@;
                            assert(before[k].1 == l@);
                        }
                        if planned_set(before).contains(l@) {
                            let k = choose|k: int| 0 <= k < before.len() && (#[trigger] before[k]).1 == l@;
                            assert(links@[k].1@ == l@);
                        }
                    }
                }
                if !taken {
                    links.push((entries[i].clone(), l));
                    proof {
                        assert(pair_views(links@) =~= before.push((entries@[i as int]@, l@)));
                        assert(p0.union(planned_set(pair_views(links@))) =~= cur.insert(l@)) by {
                            assert forall|x: Seq<char>| planned_set(pair_views(links@)).contains(x)
                                <==> (planned_set(before).contains(x) || x == l@) by {
                                if planned_set(pair_views(links@)).contains(x) {
                                    let k = choose|k: int| 0 <= k < pair_views(links@).len() && (#[trigger] pair_views(links@)[k]).1 == x;
                                    if k < before.len() {
                                        assert(pair_views(links@)[k] == before[k]);
                                    }
                                }
                                if planned_set(before).contains(x) {
                                    let k = choose|k: int| 0 <= k < before.len() && (#[trigger] before[k]).1 == x;
                                    assert(pair_views(links@)[k] == before[k]);
                                }
                                if x == l@ {
                                    assert(pair_views(links@)[before.len() as int].1 == x);
                                }
                            }
                        }
                        assert(pair_views(links@) =~= before + seq![(es.skip(i as int)[0], l@)]);
                    }
                }
            },
            None => {
                proof {
                    assert(false);
                }
                return ProjectPlan::Skip;
            },
        }
        i = i + 1;
    }
    proof {
        assert(es.skip(i as int) =~= Seq::<Seq<char>>::empty());
        assert(pair_views(links@) + Seq::<(Seq<char>, Seq<char>)>::empty() =~= pair_views(links@));
    }
    ProjectPlan::Mirror { home, links }
}

/// The plan for a project from a directory listing: `None` when some entry
/// path has no file name to link it by.
pub fn plan_listed_project(
    name: &str,
    path_exists: bool,
    entries: &[String],
    home_dirs: &[NumberedDir],
    home_root: &str,
    present: &[String],
) -> (r: Option<ProjectPlan>)
    requires
        path_exists && entries@.len() > 0 ==> home_dir_available(dir_views(home_dirs@), name@),
    ensures
        r is None <==> exists|i: int| 0 <= i < entries@.len() && (#[trigger] file_name_of(entries@[i]@)) is None,
        r matches Some(p) ==> sync_plan_ok(name@, path_exists, entries@, home_dirs@, home_root@, present@, p),
{
    let mut i: usize = 0;
    while i < entries.len()
        invariant
            i <= entries@.len(),
            forall|k: int| 0 <= k < i ==> (#[trigger] file_name_of(entries@[k]@)) is Some,
        decreases entries.len() - i,
    {
        if file_name(entries[i].as_str()).is_none() {
            return None;
        }
        i = i + 1;
    }
    Some(plan_project_sync(name, path_exists, entries, home_dirs, home_root, present))
}

} // verus!
