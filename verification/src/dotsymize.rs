//! Bringing a file under dotsym management: where in the repo it could go, and
//! which of those places to offer.
use vstd::prelude::*;
use crate::text::{to_chars, from_chars, has_prefix, chars_eq, starts_with, append_chars};
use crate::paths::{comps, seq_prefix, join_with, path_join, same_path, slash, views, components,
    comps_start_with, join_range, join_path, path_eq};
use crate::order::{chars_le, chars_le_exec, lemma_chars_le_total, lemma_chars_le_trans, lemma_chars_le_antisym,
    SortKey, StrictSortKey, sort_spec, sort_strict, views_of, lemma_same_multiset_member, lemma_sort_spec,
    sorted_views};
use crate::context::{DotsymContext, collapse_spec, config_dir_spec};
use crate::error::{DotsymError, ErrorView};
use crate::ops::path_taken;

verus! {

/// A place in the dotfiles repo where a path under home could be moved, so that
/// a link back to it is managed by dotsym.
pub struct DotsymizeCandidate {
    /// The host directory (e.g. `dotsym`, `myhost`, `myhost__a`).
    pub host_dir: String,
    /// The repo name of the directory the link is made in.
    pub literal_dir: String,
    /// The repo name of the moved file or directory.
    pub dest_name: String,
    /// Where the file or directory would live in the repo.
    pub repo_dest: String,
    /// The literal directory in the repo.
    pub literal_dir_path: String,
    /// Whether the literal directory already exists in the repo.
    pub literal_dir_exists: bool,
    /// Whether the host directory already exists in the repo.
    pub host_dir_exists: bool,
    /// How many components of the path went into the literal directory.
    pub literal_depth: usize,
    /// Whether the host directory belongs to this host (rather than `dotsym`).
    pub host_specific: bool,
}

/// What a candidate holds, as character sequences.
pub struct CandidateView {
    pub host_dir: Seq<char>,
    pub literal_dir: Seq<char>,
    pub dest_name: Seq<char>,
    pub repo_dest: Seq<char>,
    pub literal_dir_path: Seq<char>,
    pub literal_dir_exists: bool,
    pub host_dir_exists: bool,
    pub literal_depth: usize,
    pub host_specific: bool,
}

impl View for DotsymizeCandidate {
    type V = CandidateView;

    open spec fn view(&self) -> CandidateView {
        CandidateView {
            host_dir: self.host_dir@,
            literal_dir: self.literal_dir@,
            dest_name: self.dest_name@,
            repo_dest: self.repo_dest@,
            literal_dir_path: self.literal_dir_path@,
            literal_dir_exists: self.literal_dir_exists,
            host_dir_exists: self.host_dir_exists,
            literal_depth: self.literal_depth,
            host_specific: self.host_specific,
        }
    }
}

impl DotsymizeCandidate {
    pub fn clone_candidate(&self) -> (r: DotsymizeCandidate)
        ensures
            r@ == self@,
    {
        DotsymizeCandidate {
            host_dir: self.host_dir.clone(),
            literal_dir: self.literal_dir.clone(),
            dest_name: self.dest_name.clone(),
            repo_dest: self.repo_dest.clone(),
            literal_dir_path: self.literal_dir_path.clone(),
            literal_dir_exists: self.literal_dir_exists,
            host_dir_exists: self.host_dir_exists,
            literal_depth: self.literal_depth,
            host_specific: self.host_specific,
        }
    }
}

/// An entry of a directory: its name and whether it is a directory (following
/// links).
pub struct DirEntryInfo {
    pub name: String,
    pub is_dir: bool,
}

/// Whether an entry of the dotfiles directory is a host directory to consider,
/// and whether it is this host's: `host`, `host__*` (this host's) or `dotsym`,
/// `dotsym__*` (generic), when it is a directory.
pub open spec fn host_dir_kind(e: DirEntryInfo, host: Seq<char>) -> Option<bool> {
    if !e.is_dir {
        None
    } else if e.name@ == host || has_prefix(e.name@, host + "__"@) {
        Some(true)
    } else if e.name@ == "dotsym"@ || has_prefix(e.name@, "dotsym__"@) {
        Some(false)
    } else {
        None
    }
}

/// The host directories found among `es`, in listing order.
pub open spec fn found_host_dirs(es: Seq<DirEntryInfo>, host: Seq<char>) -> Seq<(Seq<char>, bool)>
    decreases es.len(),
{
    if es.len() == 0 {
        Seq::empty()
    } else {
        let r = found_host_dirs(es.drop_last(), host);
        match host_dir_kind(es.last(), host) {
            Some(b) => r.push((es.last().name@, b)),
            None => r,
        }
    }
}

/// The names in a list of host directories.
pub open spec fn dir_names(s: Seq<(Seq<char>, bool)>) -> Seq<Seq<char>> {
    s.map_values(|x: (Seq<char>, bool)| x.0)
}

/// `s` with every entry whose name appeared earlier left out.
pub open spec fn dedup_names(s: Seq<(Seq<char>, bool)>) -> Seq<(Seq<char>, bool)>
    decreases s.len(),
{
    if s.len() == 0 {
        Seq::empty()
    } else {
        let r = dedup_names(s.drop_last());
        if dir_names(s.drop_last()).contains(s.last().0) {
            r
        } else {
            r.push(s.last())
        }
    }
}

/// The host directories to consider when dotsymizing: this host's and `dotsym`
/// first, then the `host__*` and `dotsym__*` directories found, each name once.
pub open spec fn host_dirs_spec(host: Seq<char>, es: Seq<DirEntryInfo>) -> Seq<(Seq<char>, bool)> {
    dedup_names(seq![(host, true), ("dotsym"@, false)] + found_host_dirs(es, host))
}

/// The candidate for splitting the components `rel` after the first `k`, in host
/// directory `h`; `existing` are the directories known to exist.
pub open spec fn candidate_spec(
    sep: Seq<char>,
    config_dir: Seq<char>,
    rel: Seq<Seq<char>>,
    k: int,
    h: (Seq<char>, bool),
    existing: Seq<Seq<char>>,
) -> CandidateView {
    let literal_dir = collapse_spec(join_with(rel.take(k), slash()), sep);
    let dest_name = collapse_spec(join_with(rel.skip(k), slash()), sep);
    let host_path = path_join(config_dir, h.0);
    let literal_dir_path = path_join(host_path, literal_dir);
    CandidateView {
        host_dir: h.0,
        literal_dir,
        dest_name,
        repo_dest: path_join(literal_dir_path, dest_name),
        literal_dir_path,
        literal_dir_exists: path_taken(existing, literal_dir_path),
        host_dir_exists: path_taken(existing, host_path),
        literal_depth: k as usize,
        host_specific: h.1,
    }
}

/// The candidates of one split, one per host directory, in order.
pub open spec fn split_candidates(
    sep: Seq<char>,
    config_dir: Seq<char>,
    rel: Seq<Seq<char>>,
    k: int,
    hs: Seq<(Seq<char>, bool)>,
    existing: Seq<Seq<char>>,
) -> Seq<CandidateView> {
    hs.map_values(|h: (Seq<char>, bool)| candidate_spec(sep, config_dir, rel, k, h, existing))
}

/// The candidates of the splits after 0, 1, .., `k - 1` components.
pub open spec fn candidates_upto(
    sep: Seq<char>,
    config_dir: Seq<char>,
    rel: Seq<Seq<char>>,
    k: int,
    hs: Seq<(Seq<char>, bool)>,
    existing: Seq<Seq<char>>,
) -> Seq<CandidateView>
    decreases k,
{
    if k <= 0 {
        Seq::empty()
    } else {
        candidates_upto(sep, config_dir, rel, k - 1, hs, existing) + split_candidates(
            sep,
            config_dir,
            rel,
            k - 1,
            hs,
            existing,
        )
    }
}

/// The places `target` could be moved to: it must lie under home (and not be
/// home itself); for every split of its components below home into a literal
/// directory and a destination name, one candidate per host directory.
pub open spec fn candidates_spec(
    ctx: DotsymContext,
    target: Seq<char>,
    hs: Seq<(Seq<char>, bool)>,
    existing: Seq<Seq<char>>,
) -> Result<Seq<CandidateView>, ErrorView> {
    let hc = comps(ctx.home_dir@);
    let tc = comps(target);
    if !seq_prefix(hc, tc) || tc.len() == hc.len() {
        Err(ErrorView::NotUnderHome(target))
    } else {
        let rel = tc.skip(hc.len() as int);
        Ok(
            candidates_upto(
                ctx.config.separator@,
                config_dir_spec(ctx.config.dir@, ctx.home_dir@),
                rel,
                rel.len() as int,
                hs,
                existing,
            ),
        )
    }
}


pub proof fn lemma_push_contains<A>(s: Seq<A>, a: A, x: A)
    ensures
        s.push(a).contains(x) == (s.contains(x) || x == a),
{
    if s.contains(x) {
        let i = choose|i: int| 0 <= i < s.len() && s[i] == x;
        assert(s.push(a)[i] == x);
    }
    if x == a {
        assert(s.push(a)[s.len() as int] == x);
    }
    if s.push(a).contains(x) {
        let i = choose|i: int| 0 <= i < s.push(a).len() && s.push(a)[i] == x;
        if i < s.len() {
            assert(s[i] == x);
        }
    }
}

proof fn lemma_dedup_names_members(s: Seq<(Seq<char>, bool)>, x: Seq<char>)
    ensures
        dir_names(dedup_names(s)).contains(x) == dir_names(s).contains(x),
    decreases s.len(),
{
    if s.len() > 0 {
        lemma_dedup_names_members(s.drop_last(), x);
        let r = dedup_names(s.drop_last());
        let l = s.last().0;
        assert(dir_names(s) =~= dir_names(s.drop_last()).push(l));
        lemma_push_contains(dir_names(s.drop_last()), l, x);
        if !dir_names(s.drop_last()).contains(l) {
            assert(dir_names(r.push(s.last())) =~= dir_names(r).push(l));
            lemma_push_contains(dir_names(r), l, x);
        }
    }
}

fn name_listed(out: &Vec<(String, bool)>, name: &String) -> (r: bool)
    ensures
        r == dir_names(views_of(out@)).contains(name@),
{
    let n = out.len();
    for i in 0..n
        invariant
            n == out@.len(),
            forall|k: int| 0 <= k < i ==> out@[k].0@ != name@,
    {
        if out[i].0 == *name {
            assert(dir_names(views_of(out@))[i as int] == name@);
            return true;
        }
    }
    assert forall|k: int| 0 <= k < dir_names(views_of(out@)).len() implies dir_names(views_of(out@))[k] != name@ by {
        assert(dir_names(views_of(out@))[k] == out@[k].0@);
    }
    false
}

impl DotsymContext {
    /// The host directories to consider when dotsymizing, from the entries of the
    /// dotfiles directory: this host's and `dotsym` always, then any `<host>__*` and
    /// `dotsym__*` directories found, each name once; `true` marks this host's.
    pub fn dotsymize_host_dirs(&self, entries: &Vec<DirEntryInfo>) -> (r: Vec<(String, bool)>)
        ensures
            views_of(r@) == host_dirs_spec(self.hostname@, entries@),
    {
        let mut all: Vec<(String, bool)> = Vec::new();
        all.push((self.hostname.clone(), true));
        all.push(("dotsym".to_string(), false));
        let ghost lead = views_of(all@);
        assert(lead =~= seq![(self.hostname@, true), ("dotsym"@, false)]);
        let host = to_chars(self.hostname.as_str());
        let mut hp = host.clone();
        let us = to_chars("__");
        append_chars(&mut hp, &us);
        let d = to_chars("dotsym");
        let dp = to_chars("dotsym__");
        let n = entries.len();
        assert(entries@.take(0) =~= Seq::<DirEntryInfo>::empty());
        for i in 0..n
            invariant
                n == entries@.len(),
                host@ == self.hostname@,
                hp@ == self.hostname@ + "__"@,
                d@ == "dotsym"@,
                dp@ == "dotsym__"@,
                views_of(all@) == lead + found_host_dirs(entries@.take(i as int), self.hostname@),
        {
            assert(entries@.take(i + 1).drop_last() =~= entries@.take(i as int));
            assert(entries@.take(i + 1).last() == entries@[i as int]);
            let e = &entries[i];
            if e.is_dir {
                let nm = to_chars(e.name.as_str());
                let kind = if chars_eq(&nm, &host) || starts_with(&nm, &hp) {
                    Some(true)
                } else if chars_eq(&nm, &d) || starts_with(&nm, &dp) {
                    Some(false)
                } else {
                    None
                };
                match kind {
                    Some(b) => {
                        let ghost before = views_of(all@);
                        all.push((e.name.clone(), b));
                        assert(views_of(all@) =~= before.push((e.name@, b)));
                    },
                    None => {},
                }
            }
        }
        assert(entries@.take(n as int) =~= entries@);
        let ghost input = views_of(all@);
        let mut out: Vec<(String, bool)> = Vec::new();
        let m = all.len();
        assert(input.take(0) =~= Seq::<(Seq<char>, bool)>::empty());
        for i in 0..m
            invariant
                m == all@.len(),
                input == views_of(all@),
                views_of(out@) == dedup_names(input.take(i as int)),
        {
            assert(input.take(i + 1).drop_last() =~= input.take(i as int));
            assert(input.take(i + 1).last() == all@[i as int]@);
            proof {
                lemma_dedup_names_members(input.take(i as int), all@[i as int].0@);
            }
            if !name_listed(&out, &all[i].0) {
                let ghost before = views_of(out@);
                out.push((all[i].0.clone(), all[i].1));
                assert(views_of(out@) =~= before.push(all@[i as int]@));
            }
        }
        assert(input.take(m as int) =~= input);
        out
    }

    /// The places in the dotfiles repo that `target` (an absolute, normalized path)
    /// could be moved to. Its components below home are split after each of the
    /// first `0 .. n-1` of them: the first part, collapsed, names the literal
    /// directory; the rest, collapsed, the destination; each split is offered in
    /// every host directory of `host_dirs`. `existing_dirs` are the directories
    /// known to exist in the repo. A target not strictly under home is refused.
    pub fn dotsymize_candidates(
        &self,
        target: &str,
        host_dirs: &Vec<(String, bool)>,
        existing_dirs: &Vec<String>,
    ) -> (r: Result<Vec<DotsymizeCandidate>, DotsymError>)
        ensures
            match r {
                Ok(v) => candidates_spec(*self, target@, views_of(host_dirs@), views_of(existing_dirs@))
                    == Ok::<Seq<CandidateView>, ErrorView>(views_of(v@)),
                Err(e) => candidates_spec(*self, target@, views_of(host_dirs@), views_of(existing_dirs@))
                    == Err::<Seq<CandidateView>, ErrorView>(e@),
            },
    {
        let home = to_chars(self.home_dir.as_str());
        let tv = to_chars(target);
        let hc = components(&home);
        let tc = components(&tv);
        if !comps_start_with(&tc, &hc) || tc.len() == hc.len() {
            proof {
                assert(views(tc@).len() == tc@.len());
                assert(views(hc@).len() == hc@.len());
            }
            return Err(DotsymError::NotUnderHome { path: target.to_string() });
        }
        let mut rel: Vec<Vec<char>> = Vec::new();
        let mut i = hc.len();
        let ghost relv = comps(target@).skip(comps(self.home_dir@).len() as int);
        proof {
            assert(views(tc@).len() == tc@.len());
            assert(views(hc@).len() == hc@.len());
        }
        while i < tc.len()
            invariant
                hc@.len() <= i <= tc@.len(),
                views(tc@) == comps(target@),
                views(hc@) == comps(self.home_dir@),
                views(tc@).len() == tc@.len(),
                views(hc@).len() == hc@.len(),
                views(rel@) == views(tc@).subrange(hc@.len() as int, i as int),
            decreases tc@.len() - i,
        {
            let ghost before = rel@;
            rel.push(tc[i].clone());
            assert(views(rel@) =~= views(before).push(tc@[i as int]@));
            assert(views(tc@).subrange(hc@.len() as int, i + 1) =~= views(tc@).subrange(hc@.len() as int, i as int).push(tc@[i as int]@));
            i = i + 1;
        }
        assert(views(rel@) =~= relv);
        let cd = self.config_dir();
        let cdv = to_chars(cd.as_str());
        let mut sl: Vec<char> = Vec::new();
        sl.push('/');
        assert(sl@ =~= slash());
        let ghost hs = views_of(host_dirs@);
        let ghost ex = views_of(existing_dirs@);
        let ghost sep = self.config.separator@;
        let n = rel.len();
        let m = host_dirs.len();
        let mut out: Vec<DotsymizeCandidate> = Vec::new();
        assert(views_of(out@) =~= Seq::<CandidateView>::empty());
        for k in 0..n
            invariant
                n == rel@.len(),
                m == host_dirs@.len(),
                views(rel@) == relv,
                relv.len() == n,
                hs == views_of(host_dirs@),
                ex == views_of(existing_dirs@),
                sep == self.config.separator@,
                sl@ == slash(),
                cdv@ == config_dir_spec(self.config.dir@, self.home_dir@),
                views_of(out@) == candidates_upto(sep, cdv@, relv, k as int, hs, ex),
        {
            let lrel = join_range(&rel, 0, k, &sl);
            let drel = join_range(&rel, k, n, &sl);
            assert(views(rel@).subrange(0, k as int) =~= relv.take(k as int));
            assert(views(rel@).subrange(k as int, n as int) =~= relv.skip(k as int));
            let literal_dir = self.collapse_path(from_chars(&lrel).as_str());
            let dest_name = self.collapse_path(from_chars(&drel).as_str());
            let ldv = to_chars(literal_dir.as_str());
            let dnv = to_chars(dest_name.as_str());
            let ghost base = views_of(out@);
            let ghost row = split_candidates(sep, cdv@, relv, k as int, hs, ex);
            assert(row.take(0) =~= Seq::<CandidateView>::empty());
            assert(base + row.take(0) =~= base);
            for j in 0..m
                invariant
                    n == rel@.len(),
                    m == host_dirs@.len(),
                    k < n,
                    hs == views_of(host_dirs@),
                    ex == views_of(existing_dirs@),
                    row == split_candidates(sep, cdv@, relv, k as int, hs, ex),
                    row.len() == m,
                    literal_dir@ == collapse_spec(join_with(relv.take(k as int), slash()), sep),
                    dest_name@ == collapse_spec(join_with(relv.skip(k as int), slash()), sep),
                    ldv@ == literal_dir@,
                    dnv@ == dest_name@,
                    views_of(out@) == base + row.take(j as int),
            {
                let h = &host_dirs[j];
                let hn = to_chars(h.0.as_str());
                let host_path = join_path(&cdv, &hn);
                let literal_dir_path = join_path(&host_path, &ldv);
                let repo_dest = join_path(&literal_dir_path, &dnv);
                let lde = crate::ops::taken_exec(existing_dirs, &literal_dir_path);
                let hde = crate::ops::taken_exec(existing_dirs, &host_path);
                let c = DotsymizeCandidate {
                    host_dir: h.0.clone(),
                    literal_dir: literal_dir.clone(),
                    dest_name: dest_name.clone(),
                    repo_dest: from_chars(&repo_dest),
                    literal_dir_path: from_chars(&literal_dir_path),
                    literal_dir_exists: lde,
                    host_dir_exists: hde,
                    literal_depth: k,
                    host_specific: h.1,
                };
                assert(hs[j as int] == (h.0@, h.1));
                assert(c@ == row[j as int]);
                let ghost before = views_of(out@);
                out.push(c);
                assert(views_of(out@) =~= before.push(row[j as int]));
                assert(row.take(j + 1) =~= row.take(j as int).push(row[j as int]));
            }
            assert(row.take(m as int) =~= row);
        }
        Ok(out)
    }
}


/// The deepest split among the candidates (0 when there are none).
pub open spec fn max_depth(cs: Seq<CandidateView>) -> nat
    decreases cs.len(),
{
    if cs.len() == 0 {
        0
    } else {
        let m = max_depth(cs.drop_last());
        if cs.last().literal_depth > m { cs.last().literal_depth as nat } else { m }
    }
}

/// A candidate worth offering: its literal directory exists already, or it is
/// the full-depth split (the new directory mirroring the whole parent path) in
/// this host's directory or in `dotsym`.
pub open spec fn worth_offering(c: CandidateView, depth: nat, host: Seq<char>) -> bool {
    c.literal_dir_exists || (c.literal_depth == depth && (c.host_dir == host || c.host_dir == "dotsym"@))
}

pub open spec fn kept_candidates(cs: Seq<CandidateView>, depth: nat, host: Seq<char>) -> Seq<CandidateView>
    decreases cs.len(),
{
    if cs.len() == 0 {
        Seq::empty()
    } else {
        let r = kept_candidates(cs.drop_last(), depth, host);
        if worth_offering(cs.last(), depth, host) { r.push(cs.last()) } else { r }
    }
}

/// The sort key of the `i`-th kept candidate: existing literal dirs first, then
/// deeper splits, then this host's before generic, then by host dir name, then
/// by position (the sort is stable).
pub open spec fn candidate_key(c: CandidateView, i: int) -> (bool, usize, bool, Seq<char>, usize) {
    (!c.literal_dir_exists, c.literal_depth, !c.host_specific, c.host_dir, i as usize)
}

pub open spec fn candidate_keys(cs: Seq<CandidateView>) -> Seq<(bool, usize, bool, Seq<char>, usize)> {
    Seq::new(cs.len(), |i: int| candidate_key(cs[i], i))
}

/// `cs` with every candidate whose repo destination names a path seen earlier left out.
pub open spec fn dedup_dests(cs: Seq<CandidateView>) -> Seq<CandidateView>
    decreases cs.len(),
{
    if cs.len() == 0 {
        Seq::empty()
    } else {
        let r = dedup_dests(cs.drop_last());
        if dest_comps(cs.drop_last()).contains(comps(cs.last().repo_dest)) { r } else { r.push(cs.last()) }
    }
}

/// The repo destinations of the candidates, as components.
pub open spec fn dest_comps(cs: Seq<CandidateView>) -> Seq<Seq<Seq<char>>> {
    cs.map_values(|c: CandidateView| comps(c.repo_dest))
}

/// The candidates to present, in order: those worth offering, sorted (stably)
/// by their key, each repo destination once.
pub open spec fn select_spec(host: Seq<char>, cs: Seq<CandidateView>) -> Seq<CandidateView> {
    let kept = kept_candidates(cs, max_depth(cs), host);
    let order = sort_spec::<CandidateSlot>(candidate_keys(kept));
    dedup_dests(order.map_values(|k: (bool, usize, bool, Seq<char>, usize)| kept[k.4 as int]))
}

/// The sort key of a kept candidate.
pub struct CandidateSlot {
    pub not_existing: bool,
    pub depth: usize,
    pub generic: bool,
    pub host_dir: String,
    pub index: usize,
}

impl View for CandidateSlot {
    type V = (bool, usize, bool, Seq<char>, usize);

    open spec fn view(&self) -> (bool, usize, bool, Seq<char>, usize) {
        (self.not_existing, self.depth, self.generic, self.host_dir@, self.index)
    }
}

impl SortKey for CandidateSlot {
    open spec fn vle(a: (bool, usize, bool, Seq<char>, usize), b: (bool, usize, bool, Seq<char>, usize)) -> bool {
        if a.0 != b.0 {
            !a.0
        } else if a.1 != b.1 {
            a.1 > b.1
        } else if a.2 != b.2 {
            !a.2
        } else if a.3 != b.3 {
            chars_le(a.3, b.3)
        } else {
            a.4 <= b.4
        }
    }

    proof fn lemma_total(a: (bool, usize, bool, Seq<char>, usize), b: (bool, usize, bool, Seq<char>, usize)) {
        lemma_chars_le_total(a.3, b.3);
    }

    proof fn lemma_trans(
        a: (bool, usize, bool, Seq<char>, usize),
        b: (bool, usize, bool, Seq<char>, usize),
        c: (bool, usize, bool, Seq<char>, usize),
    ) {
        if a.0 == b.0 && b.0 == c.0 && a.1 == b.1 && b.1 == c.1 && a.2 == b.2 && b.2 == c.2 && a.3 != b.3
            && b.3 != c.3 {
            lemma_chars_le_trans(a.3, b.3, c.3);
            if a.3 == c.3 {
                lemma_chars_le_antisym(a.3, b.3);
            }
        }
    }

    fn le(&self, other: &CandidateSlot) -> (r: bool) {
        if self.not_existing != other.not_existing {
            !self.not_existing
        } else if self.depth != other.depth {
            self.depth > other.depth
        } else if self.generic != other.generic {
            !self.generic
        } else {
            let a = to_chars(self.host_dir.as_str());
            let b = to_chars(other.host_dir.as_str());
            if !chars_eq(&a, &b) {
                chars_le_exec(&a, &b)
            } else {
                self.index <= other.index
            }
        }
    }
}

impl StrictSortKey for CandidateSlot {
    proof fn lemma_antisym(a: (bool, usize, bool, Seq<char>, usize), b: (bool, usize, bool, Seq<char>, usize)) {
        if a.0 == b.0 && a.1 == b.1 && a.2 == b.2 && a.3 != b.3 {
            lemma_chars_le_antisym(a.3, b.3);
        }
    }
}

proof fn lemma_dedup_dests_members(s: Seq<CandidateView>, x: Seq<Seq<char>>)
    ensures
        dest_comps(dedup_dests(s)).contains(x) == dest_comps(s).contains(x),
    decreases s.len(),
{
    if s.len() > 0 {
        lemma_dedup_dests_members(s.drop_last(), x);
        let r = dedup_dests(s.drop_last());
        let l = comps(s.last().repo_dest);
        assert(dest_comps(s) =~= dest_comps(s.drop_last()).push(l));
        lemma_push_contains(dest_comps(s.drop_last()), l, x);
        if !dest_comps(s.drop_last()).contains(l) {
            assert(dest_comps(r.push(s.last())) =~= dest_comps(r).push(l));
            lemma_push_contains(dest_comps(r), l, x);
        }
    }
}

fn dest_listed(out: &Vec<DotsymizeCandidate>, d: &Vec<char>) -> (r: bool)
    ensures
        r == dest_comps(views_of(out@)).contains(comps(d@)),
{
    let n = out.len();
    for i in 0..n
        invariant
            n == out@.len(),
            forall|k: int| 0 <= k < i ==> comps(out@[k].repo_dest@) != comps(d@),
    {
        let rd = to_chars(out[i].repo_dest.as_str());
        if path_eq(&rd, d) {
            assert(dest_comps(views_of(out@))[i as int] == comps(d@));
            return true;
        }
    }
    assert forall|k: int| 0 <= k < dest_comps(views_of(out@)).len() implies dest_comps(views_of(out@))[k] != comps(d@) by {
        assert(dest_comps(views_of(out@))[k] == comps(out@[k].repo_dest@));
    }
    false
}

/// Chooses which candidates to present, and in what order: existing literal
/// directories are preferred (deepest first), then this host's directories over
/// the generic one; for places that do not exist yet only the full-depth split in
/// this host's directory or in `dotsym` is offered; each repo destination once.
pub fn select_dotsymize_candidates(context: &DotsymContext, candidates: Vec<DotsymizeCandidate>) -> (r: Vec<
    DotsymizeCandidate,
>)
    ensures
        views_of(r@) == select_spec(context.hostname@, views_of(candidates@)),
{
    let ghost cs = views_of(candidates@);
    let n = candidates.len();
    // the deepest split
    let mut md: usize = 0;
    assert(cs.take(0) =~= Seq::<CandidateView>::empty());
    for i in 0..n
        invariant
            n == candidates@.len(),
            cs == views_of(candidates@),
            md == max_depth(cs.take(i as int)),
    {
        assert(cs.take(i + 1).drop_last() =~= cs.take(i as int));
        assert(cs.take(i + 1).last() == candidates@[i as int]@);
        if candidates[i].literal_depth > md {
            md = candidates[i].literal_depth;
        }
    }
    assert(cs.take(n as int) =~= cs);
    // those worth offering
    let dotsym = "dotsym".to_string();
    let mut kept: Vec<DotsymizeCandidate> = Vec::new();
    assert(views_of(kept@) =~= Seq::<CandidateView>::empty());
    for i in 0..n
        invariant
            n == candidates@.len(),
            cs == views_of(candidates@),
            md == max_depth(cs),
            dotsym@ == "dotsym"@,
            views_of(kept@) == kept_candidates(cs.take(i as int), md as nat, context.hostname@),
    {
        assert(cs.take(i + 1).drop_last() =~= cs.take(i as int));
        assert(cs.take(i + 1).last() == candidates@[i as int]@);
        let c = &candidates[i];
        if c.literal_dir_exists || (c.literal_depth == md && (c.host_dir == context.hostname
            || c.host_dir == dotsym)) {
            let ghost before = views_of(kept@);
            kept.push(c.clone_candidate());
            assert(views_of(kept@) =~= before.push(c@));
        }
    }
    assert(cs.take(n as int) =~= cs);
    let ghost kv = views_of(kept@);
    // their sort keys
    let mut slots: Vec<CandidateSlot> = Vec::new();
    let nk = kept.len();
    for i in 0..nk
        invariant
            nk == kept@.len(),
            kv == views_of(kept@),
            views_of(slots@) == candidate_keys(kv).take(i as int),
    {
        let c = &kept[i];
        let ghost before = views_of(slots@);
        slots.push(
            CandidateSlot {
                not_existing: !c.literal_dir_exists,
                depth: c.literal_depth,
                generic: !c.host_specific,
                host_dir: c.host_dir.clone(),
                index: i,
            },
        );
        assert(views_of(slots@) =~= before.push(candidate_key(kv[i as int], i as int)));
        assert(candidate_keys(kv).take(i + 1) =~= candidate_keys(kv).take(i as int).push(
            candidate_key(kv[i as int], i as int),
        ));
    }
    assert(candidate_keys(kv).take(nk as int) =~= candidate_keys(kv));
    let order = sort_strict(slots);
    let ghost ord = views_of(order@);
    let ghost sorted = ord.map_values(|k: (bool, usize, bool, Seq<char>, usize)| kv[k.4 as int]);
    // in that order, each destination once
    let mut out: Vec<DotsymizeCandidate> = Vec::new();
    let no = order.len();
    assert(sorted.take(0) =~= Seq::<CandidateView>::empty());
    for i in 0..no
        invariant
            no == order@.len(),
            nk == kept@.len(),
            kv == views_of(kept@),
            ord == views_of(order@),
            ord.to_multiset() == candidate_keys(kv).to_multiset(),
            sorted == ord.map_values(|k: (bool, usize, bool, Seq<char>, usize)| kv[k.4 as int]),
            views_of(out@) == dedup_dests(sorted.take(i as int)),
    {
        proof {
            lemma_same_multiset_member(ord, candidate_keys(kv), i as int);
            assert(ord[i as int] == order@[i as int]@);
        }
        let idx = order[i].index;
        assert(sorted[i as int] == kept@[idx as int]@);
        assert(sorted.take(i + 1).drop_last() =~= sorted.take(i as int));
        assert(sorted.take(i + 1).last() == sorted[i as int]);
        let c = &kept[idx];
        let d = to_chars(c.repo_dest.as_str());
        proof {
            lemma_dedup_dests_members(sorted.take(i as int), comps(d@));
        }
        if !dest_listed(&out, &d) {
            let ghost before = views_of(out@);
            out.push(c.clone_candidate());
            assert(views_of(out@) =~= before.push(c@));
        }
    }
    assert(sorted.take(no as int) =~= sorted);
    out
}


/// `a` may come before `b` in the list offered: an existing literal directory
/// before a new one, then a deeper split before a shallower one, then this host's
/// directory before a generic one.
pub open spec fn offered_before(a: CandidateView, b: CandidateView) -> bool {
    &&& a.literal_dir_exists || !b.literal_dir_exists
    &&& a.literal_dir_exists == b.literal_dir_exists ==> a.literal_depth >= b.literal_depth
    &&& a.literal_dir_exists == b.literal_dir_exists && a.literal_depth == b.literal_depth ==> a.host_specific
        || !b.host_specific
}

pub open spec fn in_offered_order(s: Seq<CandidateView>) -> bool {
    forall|i: int, j: int| 0 <= i < j < s.len() ==> offered_before(#[trigger] s[i], #[trigger] s[j])
}

/// No two candidates name the same repo destination.
pub open spec fn distinct_dests(s: Seq<CandidateView>) -> bool {
    forall|i: int, j: int| 0 <= i < j < s.len() ==> comps((#[trigger] s[i]).repo_dest) != comps(
        (#[trigger] s[j]).repo_dest,
    )
}

proof fn lemma_dedup_dests_props(s: Seq<CandidateView>)
    ensures
        distinct_dests(dedup_dests(s)),
        in_offered_order(s) ==> in_offered_order(dedup_dests(s)),
        forall|i: int| 0 <= i < dedup_dests(s).len() ==> s.contains(#[trigger] dedup_dests(s)[i]),
    decreases s.len(),
{
    if s.len() > 0 {
        let dl = s.drop_last();
        lemma_dedup_dests_props(dl);
        let r = dedup_dests(dl);
        let l = s.last();
        assert forall|i: int| 0 <= i < r.len() implies s.contains(#[trigger] r[i]) by {
            let k = choose|k: int| 0 <= k < dl.len() && dl[k] == r[i];
            assert(s[k] == r[i]);
        }
        if in_offered_order(s) {
            assert(in_offered_order(dl)) by {
                assert forall|i: int, j: int| 0 <= i < j < dl.len() implies offered_before(#[trigger] dl[i], #[trigger] dl[j]) by {
                    assert(dl[i] == s[i] && dl[j] == s[j]);
                }
            }
        }
        if !dest_comps(dl).contains(comps(l.repo_dest)) {
            let r2 = r.push(l);
            assert(s.contains(l)) by {
                assert(s[s.len() - 1] == l);
            }
            lemma_dedup_dests_members(dl, comps(l.repo_dest));
            assert forall|i: int, j: int| 0 <= i < j < r2.len() implies comps((#[trigger] r2[i]).repo_dest) != comps(
                (#[trigger] r2[j]).repo_dest,
            ) by {
                if j == r.len() {
                    assert(r2[i] == r[i]);
                    assert(dest_comps(r)[i] == comps(r[i].repo_dest));
                }
            }
            if in_offered_order(s) {
                assert forall|i: int, j: int| 0 <= i < j < r2.len() implies offered_before(#[trigger] r2[i], #[trigger] r2[j]) by {
                    if j == r.len() {
                        assert(r2[i] == r[i]);
                        let k = choose|k: int| 0 <= k < dl.len() && dl[k] == r[i];
                        assert(s[k] == r[i]);
                        assert(s[s.len() - 1] == l);
                    }
                }
            }
            assert forall|i: int| 0 <= i < r2.len() implies s.contains(#[trigger] r2[i]) by {
                if i < r.len() {
                    assert(r2[i] == r[i]);
                }
            }
        }
    }
}

proof fn lemma_kept_candidates_props(cs: Seq<CandidateView>, depth: nat, host: Seq<char>)
    ensures
        forall|i: int| 0 <= i < kept_candidates(cs, depth, host).len() ==> cs.contains(
            #[trigger] kept_candidates(cs, depth, host)[i],
        ) && worth_offering(kept_candidates(cs, depth, host)[i], depth, host),
        forall|i: int| 0 <= i < cs.len() && worth_offering(#[trigger] cs[i], depth, host) ==> kept_candidates(
            cs,
            depth,
            host,
        ).contains(cs[i]),
    decreases cs.len(),
{
    if cs.len() > 0 {
        let dl = cs.drop_last();
        lemma_kept_candidates_props(dl, depth, host);
        let r = kept_candidates(dl, depth, host);
        let k = kept_candidates(cs, depth, host);
        assert forall|i: int| 0 <= i < k.len() implies cs.contains(#[trigger] k[i]) && worth_offering(k[i], depth, host) by {
            if i < r.len() {
                assert(k[i] == r[i]);
                let t = choose|t: int| 0 <= t < dl.len() && dl[t] == r[i];
                assert(cs[t] == r[i]);
            } else {
                assert(k[i] == cs.last());
                assert(cs[cs.len() - 1] == cs.last());
            }
        }
        assert forall|i: int| 0 <= i < cs.len() && worth_offering(#[trigger] cs[i], depth, host) implies k.contains(cs[i]) by {
            if i < dl.len() {
                assert(dl[i] == cs[i]);
                let t = choose|t: int| 0 <= t < r.len() && r[t] == cs[i];
                assert(k[t] == r[t]);
            } else {
                assert(k[k.len() - 1] == cs[i]);
            }
        }
    }
}

/// What `select_dotsymize_candidates` promises of the list it offers: each
/// candidate is one it was given and is worth offering; no two name the same
/// destination; existing literal directories come first, deeper splits before
/// shallower ones, this host's directories before generic ones; and every
/// destination worth offering is among them.
pub proof fn lemma_select_laws(host: Seq<char>, cs: Seq<CandidateView>)
    requires
        cs.len() <= usize::MAX,
    ensures
        ({
            let r = select_spec(host, cs);
            &&& forall|i: int| 0 <= i < r.len() ==> cs.contains(#[trigger] r[i]) && worth_offering(r[i], max_depth(cs), host)
            &&& distinct_dests(r)
            &&& in_offered_order(r)
            &&& forall|i: int| 0 <= i < cs.len() && worth_offering(#[trigger] cs[i], max_depth(cs), host)
                ==> dest_comps(r).contains(comps(cs[i].repo_dest))
        }),
{
    let kept = kept_candidates(cs, max_depth(cs), host);
    lemma_kept_candidates_props(cs, max_depth(cs), host);
    assert(kept.len() <= cs.len()) by {
        lemma_kept_len(cs, max_depth(cs), host);
    }
    let keys = candidate_keys(kept);
    let order = sort_spec::<CandidateSlot>(keys);
    lemma_sort_spec::<CandidateSlot>(keys);
    let mapped = order.map_values(|k: (bool, usize, bool, Seq<char>, usize)| kept[k.4 as int]);
    // each sorted key is the key of the kept candidate it names
    assert forall|p: int| 0 <= p < order.len() implies (#[trigger] order[p]).4 < kept.len() && order[p] == candidate_key(
        kept[order[p].4 as int],
        order[p].4 as int,
    ) by {
        lemma_same_multiset_member(order, keys, p);
        let t = choose|t: int| 0 <= t < keys.len() && keys[t] == order[p];
        assert(keys[t] == candidate_key(kept[t], t));
    }
    vstd::seq_lib::to_multiset_len(order);
    vstd::seq_lib::to_multiset_len(keys);
    assert forall|i: int| 0 <= i < mapped.len() implies cs.contains(#[trigger] mapped[i]) && worth_offering(
        mapped[i],
        max_depth(cs),
        host,
    ) by {
        assert(mapped[i] == kept[order[i].4 as int]);
        assert(0 <= order[i].4 < kept.len());
    }
    assert(in_offered_order(mapped)) by {
        assert forall|i: int, j: int| 0 <= i < j < mapped.len() implies offered_before(#[trigger] mapped[i], #[trigger] mapped[j]) by {
            assert(CandidateSlot::vle(order[i], order[j]));
            assert(mapped[i] == kept[order[i].4 as int]);
            assert(mapped[j] == kept[order[j].4 as int]);
            assert(order[i].4 < kept.len());
            assert(order[j].4 < kept.len());
        }
    }
    lemma_dedup_dests_props(mapped);
    let r = dedup_dests(mapped);
    assert forall|i: int| 0 <= i < r.len() implies cs.contains(#[trigger] r[i]) && worth_offering(r[i], max_depth(cs), host) by {
        let k = choose|k: int| 0 <= k < mapped.len() && mapped[k] == r[i];
    }
    assert forall|i: int| 0 <= i < cs.len() && worth_offering(#[trigger] cs[i], max_depth(cs), host) implies dest_comps(
        r,
    ).contains(comps(cs[i].repo_dest)) by {
        let t = choose|t: int| 0 <= t < kept.len() && kept[t] == cs[i];
        assert(keys[t] == candidate_key(kept[t], t));
        lemma_same_multiset_member(keys, order, t);
        let p = choose|p: int| 0 <= p < order.len() && order[p] == keys[t];
        assert(mapped[p] == cs[i]);
        assert(dest_comps(mapped)[p] == comps(cs[i].repo_dest));
        lemma_dedup_dests_members(mapped, comps(cs[i].repo_dest));
    }
}

proof fn lemma_kept_len(cs: Seq<CandidateView>, depth: nat, host: Seq<char>)
    ensures
        kept_candidates(cs, depth, host).len() <= cs.len(),
    decreases cs.len(),
{
    if cs.len() > 0 {
        lemma_kept_len(cs.drop_last(), depth, host);
    }
}

/// A host directory fit to offer for `host`: named after the host (`host` or
/// `host__*`) and marked as this host's, or generic (`dotsym` or `dotsym__*`) and
/// marked as not.
spec fn fit_host_dir(x: (Seq<char>, bool), host: Seq<char>) -> bool {
    &&& (x.0 == host || has_prefix(x.0, host + "__"@) || x.0 == "dotsym"@ || has_prefix(x.0, "dotsym__"@))
    &&& (x.1 <==> (x.0 == host || has_prefix(x.0, host + "__"@)))
}

proof fn lemma_found_host_dirs_fit(es: Seq<DirEntryInfo>, host: Seq<char>)
    ensures
        forall|k: int| 0 <= k < found_host_dirs(es, host).len() ==> fit_host_dir(#[trigger] found_host_dirs(es, host)[k], host),
    decreases es.len(),
{
    if es.len() > 0 {
        lemma_found_host_dirs_fit(es.drop_last(), host);
        let r = found_host_dirs(es.drop_last(), host);
        assert forall|k: int| 0 <= k < found_host_dirs(es, host).len() implies fit_host_dir(
            #[trigger] found_host_dirs(es, host)[k],
            host,
        ) by {
            if k < r.len() {
                assert(found_host_dirs(es, host)[k] == r[k]);
            }
        }
    }
}

/// `x` is the entry at `j` of `s`, and no entry before it has its name.
spec fn first_of_name(s: Seq<(Seq<char>, bool)>, j: int, x: (Seq<char>, bool)) -> bool {
    0 <= j < s.len() && s[j] == x && forall|i: int| 0 <= i < j ==> (#[trigger] s[i]).0 != x.0
}

proof fn lemma_dedup_names_from(s: Seq<(Seq<char>, bool)>, k: int)
    requires
        0 <= k < dedup_names(s).len(),
    ensures
        exists|j: int| first_of_name(s, j, dedup_names(s)[k]),
    decreases s.len(),
{
    let dl = s.drop_last();
    let r = dedup_names(dl);
    if k < r.len() {
        lemma_dedup_names_from(dl, k);
        assert(dedup_names(s)[k] == r[k]);
        let j = choose|j: int| first_of_name(dl, j, r[k]);
        assert forall|i: int| 0 <= i < j implies (#[trigger] s[i]).0 != r[k].0 by {
            assert(s[i] == dl[i]);
        }
        assert(first_of_name(s, j, dedup_names(s)[k]));
    } else {
        let j = s.len() - 1;
        assert(s[j] == s.last());
        assert(!dir_names(dl).contains(s.last().0));
        assert forall|i: int| 0 <= i < j implies (#[trigger] s[i]).0 != s.last().0 by {
            assert(s[i] == dl[i]);
            assert(dir_names(dl)[i] == dl[i].0);
        }
        assert(first_of_name(s, j, dedup_names(s)[k]));
    }
}

/// Every host directory offered for dotsymizing is one that the mappings are read
/// from for this host: its name is the host's name, begins with the host's name
/// and `__`, is `dotsym` or begins with `dotsym__`; and it is marked as this host's
/// exactly when it is named after the host. A directory whose name merely begins
/// with the host's name (such as the host's name followed by `2`) is not offered.
pub proof fn lemma_offered_host_dirs(host: Seq<char>, es: Seq<DirEntryInfo>, k: int)
    requires
        0 <= k < host_dirs_spec(host, es).len(),
    ensures
        ({
            let (n, specific) = host_dirs_spec(host, es)[k];
            &&& n == host || has_prefix(n, host + "__"@) || n == "dotsym"@ || has_prefix(n, "dotsym__"@)
            &&& specific <==> (n == host || has_prefix(n, host + "__"@))
            &&& crate::mappings::host_class(n, host) is Some
        }),
{
    let lead = seq![(host, true), ("dotsym"@, false)];
    let all = lead + found_host_dirs(es, host);
    lemma_dedup_names_from(all, k);
    lemma_found_host_dirs_fit(es, host);
    let x = host_dirs_spec(host, es)[k];
    let j = choose|j: int| first_of_name(all, j, x);
    if j >= 2 {
        assert(all[j] == found_host_dirs(es, host)[j - 2]);
    } else if j == 1 {
        assert(x == ("dotsym"@, false));
        assert(all[0].0 != x.0);
        assert(!has_prefix("dotsym"@, host + "__"@)) by {
            reveal_strlit("dotsym");
            reveal_strlit("__");
            if has_prefix("dotsym"@, host + "__"@) {
                let p = host + "__"@;
                let l = p.len() as int;
                assert(p[l - 1] == '_');
                assert("dotsym"@.take(l)[l - 1] == '_');
            }
        }
    }
    assert(fit_host_dir(x, host));
    crate::mappings::lemma_host_class_names(x.0, host);
}

} // verus!
