//! Finding the links dotsym made that now point at nothing.
use vstd::prelude::*;
use crate::text::{to_chars, from_chars};
use crate::paths::{comps, views, components, parent_of, parent, is_abs, path_join, normalize, normalize_chars,
    join_path, path_starts_with, comps_start_with};
use crate::order::{comps_le, comps_le_exec, lemma_comps_le_total, lemma_comps_le_trans, lemma_comps_le_antisym, lemma_comps_le_refl,
    SortKey, StrictSortKey, sort_spec, sort_strict, views_of, lemma_same_multiset_member, lemma_sort_spec};
use crate::context::{DotsymContext, config_dir_spec};
use crate::mappings::SymlinkMapping;
use crate::ops::PathState;
use crate::dotsymize::lemma_push_contains;

verus! {

/// A broken link in a directory the dotsym layout links into, that points into
/// the dotfiles repo at something that no longer exists.
pub struct DanglingSymlink {
    /// The link itself (what `clean` would remove).
    pub link_path: String,
    /// Where it points, made absolute and normalized.
    pub target: String,
}

impl View for DanglingSymlink {
    type V = (Seq<char>, Seq<char>);

    open spec fn view(&self) -> (Seq<char>, Seq<char>) {
        (self.link_path@, self.target@)
    }
}

/// A path to sort: its components, and its place in the list being sorted.
pub struct PathSlot {
    pub comps: Vec<Vec<char>>,
    pub index: usize,
}

impl View for PathSlot {
    type V = (Seq<Seq<char>>, usize);

    open spec fn view(&self) -> (Seq<Seq<char>>, usize) {
        (views(self.comps@), self.index)
    }
}

impl SortKey for PathSlot {
    open spec fn vle(a: (Seq<Seq<char>>, usize), b: (Seq<Seq<char>>, usize)) -> bool {
        if a.0 != b.0 {
            comps_le(a.0, b.0)
        } else {
            a.1 <= b.1
        }
    }

    proof fn lemma_total(a: (Seq<Seq<char>>, usize), b: (Seq<Seq<char>>, usize)) {
        lemma_comps_le_total(a.0, b.0);
    }

    proof fn lemma_trans(a: (Seq<Seq<char>>, usize), b: (Seq<Seq<char>>, usize), c: (Seq<Seq<char>>, usize)) {
        if a.0 != b.0 && b.0 != c.0 {
            lemma_comps_le_trans(a.0, b.0, c.0);
            if a.0 == c.0 {
                lemma_comps_le_antisym(a.0, b.0);
            }
        }
    }

    fn le(&self, other: &PathSlot) -> (r: bool) {
        let same = comps_le_exec(&self.comps, &other.comps) && comps_le_exec(&other.comps, &self.comps);
        proof {
            if comps_le(views(self.comps@), views(other.comps@)) && comps_le(views(other.comps@), views(self.comps@)) {
                lemma_comps_le_antisym(views(self.comps@), views(other.comps@));
            }
            lemma_comps_le_refl(views(self.comps@));
        }
        if !same {
            comps_le_exec(&self.comps, &other.comps)
        } else {
            self.index <= other.index
        }
    }
}

impl StrictSortKey for PathSlot {
    proof fn lemma_antisym(a: (Seq<Seq<char>>, usize), b: (Seq<Seq<char>>, usize)) {
        if a.0 != b.0 {
            lemma_comps_le_antisym(a.0, b.0);
        }
    }
}

/// The sort keys of a list of paths: their components, then their position (a
/// stable sort by path).
pub open spec fn path_keys(ps: Seq<Seq<char>>) -> Seq<(Seq<Seq<char>>, usize)> {
    Seq::new(ps.len(), |i: int| (comps(ps[i]), i as usize))
}

/// `ps` sorted (stably) in the order of paths.
pub open spec fn sort_paths_spec(ps: Seq<Seq<char>>) -> Seq<Seq<char>> {
    sort_spec::<PathSlot>(path_keys(ps)).map_values(|k: (Seq<Seq<char>>, usize)| ps[k.1 as int])
}

/// The parents of the mappings' sources, in order.
pub open spec fn source_parents(ms: Seq<(Seq<char>, Seq<char>)>) -> Seq<Seq<char>>
    decreases ms.len(),
{
    if ms.len() == 0 {
        Seq::empty()
    } else {
        let r = source_parents(ms.drop_last());
        match parent_of(ms.last().0) {
            Some(p) => r.push(p),
            None => r,
        }
    }
}

pub open spec fn comps_of_all(ps: Seq<Seq<char>>) -> Seq<Seq<Seq<char>>> {
    ps.map_values(|p: Seq<char>| comps(p))
}

/// `ps` with every path that names a path seen earlier left out.
pub open spec fn dedup_paths(ps: Seq<Seq<char>>) -> Seq<Seq<char>>
    decreases ps.len(),
{
    if ps.len() == 0 {
        Seq::empty()
    } else {
        let r = dedup_paths(ps.drop_last());
        if comps_of_all(ps.drop_last()).contains(comps(ps.last())) { r } else { r.push(ps.last()) }
    }
}

/// The directories dotsym makes links in: the parents of the mappings' sources,
/// each once, sorted.
pub open spec fn link_dirs_spec(ms: Seq<(Seq<char>, Seq<char>)>) -> Seq<Seq<char>> {
    sort_paths_spec(dedup_paths(source_parents(ms)))
}

proof fn lemma_dedup_paths_members(s: Seq<Seq<char>>, x: Seq<Seq<char>>)
    ensures
        comps_of_all(dedup_paths(s)).contains(x) == comps_of_all(s).contains(x),
    decreases s.len(),
{
    if s.len() > 0 {
        lemma_dedup_paths_members(s.drop_last(), x);
        let r = dedup_paths(s.drop_last());
        let l = comps(s.last());
        assert(comps_of_all(s) =~= comps_of_all(s.drop_last()).push(l));
        lemma_push_contains(comps_of_all(s.drop_last()), l, x);
        if !comps_of_all(s.drop_last()).contains(l) {
            assert(comps_of_all(r.push(s.last())) =~= comps_of_all(r).push(l));
            lemma_push_contains(comps_of_all(r), l, x);
        }
    }
}

fn path_listed(out: &Vec<String>, cp: &Vec<Vec<char>>) -> (r: bool)
    ensures
        r == comps_of_all(views_of(out@)).contains(views(cp@)),
{
    let n = out.len();
    for i in 0..n
        invariant
            n == out@.len(),
            forall|k: int| 0 <= k < i ==> comps(out@[k]@) != views(cp@),
    {
        let o = to_chars(out[i].as_str());
        let oc = components(&o);
        if comps_start_with(&oc, cp) && comps_start_with(cp, &oc) {
            assert(views(oc@) =~= views(cp@)) by {
                assert(views(oc@).len() == views(cp@).len());
            }
            assert(comps_of_all(views_of(out@))[i as int] == views(cp@));
            return true;
        }
        proof {
            if comps(out@[i as int]@) == views(cp@) {
                assert(views(oc@).take(views(cp@).len() as int) =~= views(cp@));
                assert(views(cp@).take(views(oc@).len() as int) =~= views(oc@));
            }
        }
    }
    assert forall|k: int| 0 <= k < comps_of_all(views_of(out@)).len() implies comps_of_all(views_of(out@))[k] != views(cp@) by {
        assert(comps_of_all(views_of(out@))[k] == comps(out@[k]@));
    }
    false
}

/// Sorts paths (stably) in the order of paths.
pub fn sort_paths(ps: &Vec<String>) -> (r: Vec<String>)
    ensures
        views_of(r@) == sort_paths_spec(views_of(ps@)),
{
    let ghost pv = views_of(ps@);
    let mut slots: Vec<PathSlot> = Vec::new();
    let n = ps.len();
    for i in 0..n
        invariant
            n == ps@.len(),
            pv == views_of(ps@),
            views_of(slots@) == path_keys(pv).take(i as int),
    {
        let p = to_chars(ps[i].as_str());
        let c = components(&p);
        let ghost before = views_of(slots@);
        slots.push(PathSlot { comps: c, index: i });
        assert(views_of(slots@) =~= before.push((comps(pv[i as int]), i)));
        assert(path_keys(pv).take(i + 1) =~= path_keys(pv).take(i as int).push((comps(pv[i as int]), i)));
    }
    assert(path_keys(pv).take(n as int) =~= path_keys(pv));
    let order = sort_strict(slots);
    let ghost ord = views_of(order@);
    let ghost target = ord.map_values(|k: (Seq<Seq<char>>, usize)| pv[k.1 as int]);
    let mut out: Vec<String> = Vec::new();
    let m = order.len();
    for i in 0..m
        invariant
            m == order@.len(),
            n == ps@.len(),
            pv == views_of(ps@),
            ord == views_of(order@),
            ord.to_multiset() == path_keys(pv).to_multiset(),
            target == ord.map_values(|k: (Seq<Seq<char>>, usize)| pv[k.1 as int]),
            views_of(out@) == target.take(i as int),
    {
        proof {
            lemma_same_multiset_member(ord, path_keys(pv), i as int);
            assert(ord[i as int] == order@[i as int]@);
        }
        let idx = order[i].index;
        let ghost before = views_of(out@);
        out.push(ps[idx].clone());
        assert(views_of(out@) =~= before.push(target[i as int]));
        assert(target.take(i + 1) =~= target.take(i as int).push(target[i as int]));
    }
    assert(target.take(m as int) =~= target);
    out
}

/// The directories dotsym makes links in: the parents of the mappings' sources,
/// each directory once, sorted by path.
pub fn link_dirs(mappings: &Vec<SymlinkMapping>) -> (r: Vec<String>)
    ensures
        views_of(r@) == link_dirs_spec(views_of(mappings@)),
{
    let ghost ms = views_of(mappings@);
    let mut out: Vec<String> = Vec::new();
    let ghost mut seen_all: Seq<Seq<char>> = Seq::empty();
    let n = mappings.len();
    assert(ms.take(0) =~= Seq::<(Seq<char>, Seq<char>)>::empty());
    for i in 0..n
        invariant
            n == mappings@.len(),
            ms == views_of(mappings@),
            views_of(out@) == dedup_paths(source_parents(ms.take(i as int))),
    {
        assert(ms.take(i + 1).drop_last() =~= ms.take(i as int));
        assert(ms.take(i + 1).last() == mappings@[i as int]@);
        let s = to_chars(mappings[i].source.as_str());
        match parent(&s) {
            Some(p) => {
                let ghost prev = source_parents(ms.take(i as int));
                assert(source_parents(ms.take(i + 1)) == prev.push(p@));
                assert(prev.push(p@).drop_last() =~= prev);
                let pc = components(&p);
                proof {
                    lemma_dedup_paths_members(prev, comps(p@));
                }
                if !path_listed(&out, &pc) {
                    let ghost before = views_of(out@);
                    out.push(from_chars(&p));
                    assert(views_of(out@) =~= before.push(p@));
                }
            },
            None => {},
        }
    }
    assert(ms.take(n as int) =~= ms);
    sort_paths(&out)
}

/// An entry found in a link directory: the directory, the entry's path, whether
/// it is a symlink, where it points (when it could be read), and whether what it
/// points at exists.
pub struct LinkEntry {
    pub dir: String,
    pub link_path: String,
    pub is_symlink: bool,
    pub raw_target: Option<String>,
    pub target_exists: bool,
}

/// Where a link points, made absolute against its directory and normalized.
pub open spec fn link_target_spec(dir: Seq<char>, raw: Seq<char>) -> Seq<char> {
    normalize(if is_abs(raw) { raw } else { path_join(dir, raw) })
}

/// The entry is a broken link into the dotfiles repo (`repo` is the normalized
/// dotfiles directory).
pub open spec fn is_dangling(e: LinkEntry, repo: Seq<char>) -> bool {
    e.is_symlink && (e.raw_target matches Some(t) && path_starts_with(link_target_spec(e.dir@, t@), repo))
        && !e.target_exists
}

/// The broken links into the repo among `es`, in order, with their targets.
pub open spec fn dangling_in(es: Seq<LinkEntry>, repo: Seq<char>) -> Seq<(Seq<char>, Seq<char>)>
    decreases es.len(),
{
    if es.len() == 0 {
        Seq::empty()
    } else {
        let r = dangling_in(es.drop_last(), repo);
        if is_dangling(es.last(), repo) {
            r.push((es.last().link_path@, link_target_spec(es.last().dir@, es.last().raw_target->Some_0@)))
        } else {
            r
        }
    }
}

/// The dangling links sorted (stably) by link path.
pub open spec fn sort_dangling_spec(ds: Seq<(Seq<char>, Seq<char>)>) -> Seq<(Seq<char>, Seq<char>)> {
    let keys = Seq::new(ds.len(), |i: int| (comps(ds[i].0), i as usize));
    sort_spec::<PathSlot>(keys).map_values(|k: (Seq<Seq<char>>, usize)| ds[k.1 as int])
}

impl DotsymContext {
    /// The broken links into the dotfiles repo among the entries found in the link
    /// directories: symlinks (nothing else is touched) whose target, made absolute
    /// and normalized, lies inside the (normalized) dotfiles directory and no longer
    /// exists; sorted by link path.
    pub fn find_dangling_symlinks(&self, entries: &Vec<LinkEntry>) -> (r: Vec<DanglingSymlink>)
        ensures
            views_of(r@) == sort_dangling_spec(
                dangling_in(entries@, normalize(config_dir_spec(self.config.dir@, self.home_dir@))),
            ),
    {
        let cd = self.config_dir();
        let cdv = to_chars(cd.as_str());
        let repo = normalize_chars(&cdv);
        let repo_c = components(&repo);
        let mut found: Vec<DanglingSymlink> = Vec::new();
        let n = entries.len();
        assert(entries@.take(0) =~= Seq::<LinkEntry>::empty());
        for i in 0..n
            invariant
                n == entries@.len(),
                repo@ == normalize(config_dir_spec(self.config.dir@, self.home_dir@)),
                views(repo_c@) == comps(repo@),
                views_of(found@) == dangling_in(entries@.take(i as int), repo@),
        {
            assert(entries@.take(i + 1).drop_last() =~= entries@.take(i as int));
            assert(entries@.take(i + 1).last() == entries@[i as int]);
            let e = &entries[i];
            if e.is_symlink && !e.target_exists {
                match &e.raw_target {
                    Some(t) => {
                        let tv = to_chars(t.as_str());
                        let abs = if tv.len() > 0 && tv[0] == '/' {
                            tv
                        } else {
                            let dv = to_chars(e.dir.as_str());
                            join_path(&dv, &tv)
                        };
                        let target = normalize_chars(&abs);
                        let tc = components(&target);
                        if comps_start_with(&tc, &repo_c) {
                            let ghost before = views_of(found@);
                            found.push(DanglingSymlink { link_path: e.link_path.clone(), target: from_chars(&target) });
                            assert(views_of(found@) =~= before.push((e.link_path@, target@)));
                        }
                    },
                    None => {},
                }
            }
        }
        assert(entries@.take(n as int) =~= entries@);
        // sort by link path
        let ghost ds = views_of(found@);
        let ghost keys = Seq::new(ds.len(), |k: int| (comps(ds[k].0), k as usize));
        let mut slots: Vec<PathSlot> = Vec::new();
        let m = found.len();
        for i in 0..m
            invariant
                m == found@.len(),
                ds == views_of(found@),
                keys == Seq::new(ds.len(), |k: int| (comps(ds[k].0), k as usize)),
                views_of(slots@) == keys.take(i as int),
        {
            let p = to_chars(found[i].link_path.as_str());
            let c = components(&p);
            let ghost before = views_of(slots@);
            slots.push(PathSlot { comps: c, index: i });
            assert(views_of(slots@) =~= before.push(keys[i as int]));
            assert(keys.take(i + 1) =~= keys.take(i as int).push(keys[i as int]));
        }
        assert(keys.take(m as int) =~= keys);
        let order = sort_strict(slots);
        let ghost ord = views_of(order@);
        let ghost target = ord.map_values(|k: (Seq<Seq<char>>, usize)| ds[k.1 as int]);
        let mut out: Vec<DanglingSymlink> = Vec::new();
        let no = order.len();
        for i in 0..no
            invariant
                no == order@.len(),
                m == found@.len(),
                ds == views_of(found@),
                keys == Seq::new(ds.len(), |k: int| (comps(ds[k].0), k as usize)),
                ord == views_of(order@),
                ord.to_multiset() == keys.to_multiset(),
                target == ord.map_values(|k: (Seq<Seq<char>>, usize)| ds[k.1 as int]),
                views_of(out@) == target.take(i as int),
        {
            proof {
                lemma_same_multiset_member(ord, keys, i as int);
                assert(ord[i as int] == order@[i as int]@);
            }
            let idx = order[i].index;
            let d = &found[idx];
            let ghost before = views_of(out@);
            out.push(DanglingSymlink { link_path: d.link_path.clone(), target: d.target.clone() });
            assert(views_of(out@) =~= before.push(target[i as int]));
            assert(target.take(i + 1) =~= target.take(i as int).push(target[i as int]));
        }
        assert(target.take(no as int) =~= target);
        out
    }
}

/// What an entry that is a broken link into the repo is reported as.
pub open spec fn dangling_pair(e: LinkEntry) -> (Seq<char>, Seq<char>) {
    (e.link_path@, link_target_spec(e.dir@, e.raw_target->Some_0@))
}

/// `x` is the report of a broken link into `repo` among `es`.
pub open spec fn reported_from(x: (Seq<char>, Seq<char>), es: Seq<LinkEntry>, repo: Seq<char>) -> bool {
    exists|j: int| 0 <= j < es.len() && is_dangling(#[trigger] es[j], repo) && x == dangling_pair(es[j])
}

proof fn lemma_dangling_in_len(es: Seq<LinkEntry>, repo: Seq<char>)
    ensures
        dangling_in(es, repo).len() <= es.len(),
    decreases es.len(),
{
    if es.len() > 0 {
        lemma_dangling_in_len(es.drop_last(), repo);
    }
}

/// Each report comes from a broken link among the entries.
proof fn lemma_dangling_in_source(es: Seq<LinkEntry>, repo: Seq<char>, i: int) -> (j: int)
    requires
        0 <= i < dangling_in(es, repo).len(),
    ensures
        0 <= j < es.len(),
        is_dangling(es[j], repo),
        dangling_in(es, repo)[i] == dangling_pair(es[j]),
    decreases es.len(),
{
    let dl = es.drop_last();
    let r = dangling_in(dl, repo);
    if i < r.len() {
        let j = lemma_dangling_in_source(dl, repo, i);
        assert(es[j] == dl[j]);
        j
    } else {
        let j = es.len() - 1;
        assert(es[j] == es.last());
        j
    }
}

/// Each broken link among the entries is reported.
proof fn lemma_dangling_in_reported(es: Seq<LinkEntry>, repo: Seq<char>, j: int) -> (i: int)
    requires
        0 <= j < es.len(),
        is_dangling(es[j], repo),
    ensures
        0 <= i < dangling_in(es, repo).len(),
        dangling_in(es, repo)[i] == dangling_pair(es[j]),
    decreases es.len(),
{
    let dl = es.drop_last();
    let r = dangling_in(dl, repo);
    if j < dl.len() {
        assert(es[j] == dl[j]);
        lemma_dangling_in_reported(dl, repo, j)
    } else {
        assert(es[j] == es.last());
        r.len() as int
    }
}

/// `clean` offers broken links into the repo and nothing else, and misses none:
/// each link it reports is a symlink among the entries whose target, made absolute
/// and normalized, lies in the repo and no longer exists; and every such entry is
/// reported.
pub proof fn lemma_clean_finds_broken_links(es: Seq<LinkEntry>, repo: Seq<char>)
    requires
        es.len() <= usize::MAX,
    ensures
        forall|i: int|
            0 <= i < sort_dangling_spec(dangling_in(es, repo)).len() ==> reported_from(
                #[trigger] sort_dangling_spec(dangling_in(es, repo))[i],
                es,
                repo,
            ),
        forall|j: int|
            0 <= j < es.len() && is_dangling(#[trigger] es[j], repo) ==> sort_dangling_spec(
                dangling_in(es, repo),
            ).contains(dangling_pair(es[j])),
{
    let ds = dangling_in(es, repo);
    lemma_dangling_in_len(es, repo);
    let keys = Seq::new(ds.len(), |k: int| (comps(ds[k].0), k as usize));
    let sorted = sort_spec::<PathSlot>(keys);
    lemma_sort_spec::<PathSlot>(keys);
    let out = sort_dangling_spec(ds);
    assert(out == sorted.map_values(|k: (Seq<Seq<char>>, usize)| ds[k.1 as int]));
    assert forall|i: int| 0 <= i < out.len() implies reported_from(#[trigger] out[i], es, repo) by {
        lemma_same_multiset_member(sorted, keys, i);
        let m = choose|m: int| 0 <= m < keys.len() && keys[m] == sorted[i];
        assert(out[i] == ds[m]);
        let j = lemma_dangling_in_source(es, repo, m);
        assert(is_dangling(es[j], repo) && out[i] == dangling_pair(es[j]));
    }
    assert forall|j: int| 0 <= j < es.len() && is_dangling(#[trigger] es[j], repo) implies out.contains(
        dangling_pair(es[j]),
    ) by {
        let m = lemma_dangling_in_reported(es, repo, j);
        assert(keys[m] == (comps(ds[m].0), m as usize));
        lemma_same_multiset_member(keys, sorted, m);
        let i = choose|i: int| 0 <= i < sorted.len() && sorted[i] == keys[m];
        assert(out[i] == ds[m]);
    }
}

/// Whether a link reported as dangling still is, just before it is removed: it
/// must still be a symlink, and still point at nothing.
pub fn still_dangling(now: &PathState) -> (r: bool)
    ensures
        r == (now.is_symlink && !now.exists),
{
    now.is_symlink && !now.exists
}

} // verus!
