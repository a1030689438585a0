//! Which links the dotfiles repo asks for: the repo is read as
//! `<dotfiles>/<host dir>/<literal dir>/<entry>`, and each entry becomes a link
//! under home whose path is spelled by the literal dir and the entry's name.
use vstd::prelude::*;
use crate::text::{to_chars, from_chars, has_prefix, chars_eq, starts_with, append_chars};
use crate::paths::{path_join, join_path};
use crate::order::{chars_le, chars_le_exec, lemma_chars_le_total, lemma_chars_le_trans, lemma_chars_le_antisym,
    SortKey, StrictSortKey, sort_spec, sort_strict, views_of, sorted_views, lemma_same_multiset_member,
    lemma_sort_spec};
use crate::context::{DotsymContext, expand_spec, config_dir_spec};
use crate::error::{DotsymError, ErrorView};

verus! {

/// A link to create: `source` is the path under home, `destination` the file in
/// the dotfiles repo it points at.
pub struct SymlinkMapping {
    pub source: String,
    pub destination: String,
}

impl View for SymlinkMapping {
    type V = (Seq<char>, Seq<char>);

    open spec fn view(&self) -> (Seq<char>, Seq<char>) {
        (self.source@, self.destination@)
    }
}

impl SymlinkMapping {
    pub fn clone_mapping(&self) -> (r: SymlinkMapping)
        ensures
            r@ == self@,
    {
        SymlinkMapping { source: self.source.clone(), destination: self.destination.clone() }
    }
}

/// A directory entry inside a host directory, as read from disk: its name, whether
/// it is a directory (following symlinks), and the names inside it (or the error
/// met while reading them).
pub struct LiteralListing {
    pub name: String,
    pub is_dir: bool,
    pub entries: Result<Vec<String>, String>,
}

/// An entry of the dotfiles directory, as read from disk: its name, whether it is
/// a directory (following symlinks), and its entries (or the error met while
/// reading them).
pub struct HostListing {
    pub name: String,
    pub is_dir: bool,
    pub literal_dirs: Result<Vec<LiteralListing>, String>,
}

/// The dotfiles directory as read from disk: whether it exists, whether it is a
/// directory, and its entries (or the error met while reading them).
pub struct DotfilesListing {
    pub exists: bool,
    pub is_dir: bool,
    pub hosts: Result<Vec<HostListing>, String>,
}

/// The group of a host directory: 0 for the generic `dotsym` dirs, 1 for those of
/// this host; others are not read.
pub open spec fn host_class(name: Seq<char>, host: Seq<char>) -> Option<u8> {
    if name == "dotsym"@ || has_prefix(name, "dotsym__"@) {
        Some(0u8)
    } else if name == host || has_prefix(name, host + "__"@) {
        Some(1u8)
    } else {
        None
    }
}

/// A host directory to read: its name, its group and its place in the listing.
pub struct HostSlot {
    pub name: String,
    pub class: u8,
    pub index: usize,
}

impl View for HostSlot {
    type V = (Seq<char>, u8, usize);

    open spec fn view(&self) -> (Seq<char>, u8, usize) {
        (self.name@, self.class, self.index)
    }
}

impl SortKey for HostSlot {
    open spec fn vle(a: (Seq<char>, u8, usize), b: (Seq<char>, u8, usize)) -> bool {
        if a.0 != b.0 {
            chars_le(a.0, b.0)
        } else if a.1 != b.1 {
            a.1 < b.1
        } else {
            a.2 <= b.2
        }
    }

    proof fn lemma_total(a: (Seq<char>, u8, usize), b: (Seq<char>, u8, usize)) {
        lemma_chars_le_total(a.0, b.0);
    }

    proof fn lemma_trans(a: (Seq<char>, u8, usize), b: (Seq<char>, u8, usize), c: (Seq<char>, u8, usize)) {
        if a.0 != b.0 && b.0 != c.0 {
            lemma_chars_le_trans(a.0, b.0, c.0);
            if a.0 == c.0 {
                lemma_chars_le_antisym(a.0, b.0);
            }
        }
    }

    fn le(&self, other: &HostSlot) -> (r: bool) {
        let a = to_chars(self.name.as_str());
        let b = to_chars(other.name.as_str());
        if !chars_eq(&a, &b) {
            chars_le_exec(&a, &b)
        } else if self.class != other.class {
            self.class < other.class
        } else {
            self.index <= other.index
        }
    }
}

impl StrictSortKey for HostSlot {
    proof fn lemma_antisym(a: (Seq<char>, u8, usize), b: (Seq<char>, u8, usize)) {
        if a.0 != b.0 {
            lemma_chars_le_antisym(a.0, b.0);
        }
    }
}

/// A literal directory to read: its name and its place in the listing.
pub struct LiteralSlot {
    pub name: String,
    pub index: usize,
}

impl View for LiteralSlot {
    type V = (Seq<char>, usize);

    open spec fn view(&self) -> (Seq<char>, usize) {
        (self.name@, self.index)
    }
}

impl SortKey for LiteralSlot {
    open spec fn vle(a: (Seq<char>, usize), b: (Seq<char>, usize)) -> bool {
        if a.0 != b.0 {
            chars_le(a.0, b.0)
        } else {
            a.1 <= b.1
        }
    }

    proof fn lemma_total(a: (Seq<char>, usize), b: (Seq<char>, usize)) {
        lemma_chars_le_total(a.0, b.0);
    }

    proof fn lemma_trans(a: (Seq<char>, usize), b: (Seq<char>, usize), c: (Seq<char>, usize)) {
        if a.0 != b.0 && b.0 != c.0 {
            lemma_chars_le_trans(a.0, b.0, c.0);
            if a.0 == c.0 {
                lemma_chars_le_antisym(a.0, b.0);
            }
        }
    }

    fn le(&self, other: &LiteralSlot) -> (r: bool) {
        let a = to_chars(self.name.as_str());
        let b = to_chars(other.name.as_str());
        if !chars_eq(&a, &b) {
            chars_le_exec(&a, &b)
        } else {
            self.index <= other.index
        }
    }
}

impl StrictSortKey for LiteralSlot {
    proof fn lemma_antisym(a: (Seq<char>, usize), b: (Seq<char>, usize)) {
        if a.0 != b.0 {
            lemma_chars_le_antisym(a.0, b.0);
        }
    }
}


/// The host directories to read, in listing order.
pub open spec fn selected_hosts(hs: Seq<HostListing>, host: Seq<char>) -> Seq<(Seq<char>, u8, usize)>
    decreases hs.len(),
{
    if hs.len() == 0 {
        Seq::empty()
    } else {
        let r = selected_hosts(hs.drop_last(), host);
        match host_class(hs.last().name@, host) {
            Some(c) => r.push((hs.last().name@, c, (hs.len() - 1) as usize)),
            None => r,
        }
    }
}

/// The literal directories of a host directory (its entries that are directories),
/// in listing order.
pub open spec fn selected_literals(ls: Seq<LiteralListing>) -> Seq<(Seq<char>, usize)>
    decreases ls.len(),
{
    if ls.len() == 0 {
        Seq::empty()
    } else {
        let r = selected_literals(ls.drop_last());
        if ls.last().is_dir {
            r.push((ls.last().name@, (ls.len() - 1) as usize))
        } else {
            r
        }
    }
}

/// The directory under home that a literal directory stands for.
pub open spec fn target_dir_spec(home: Seq<char>, literal: Seq<char>, sep: Seq<char>) -> Seq<char> {
    let e = expand_spec(literal, sep);
    if e.len() == 0 { home } else { path_join(home, e) }
}

/// The mappings of the entries of one literal directory, in listing order.
pub open spec fn entry_mappings(
    target_dir: Seq<char>,
    literal_path: Seq<char>,
    entries: Seq<Seq<char>>,
    sep: Seq<char>,
) -> Seq<(Seq<char>, Seq<char>)> {
    entries.map_values(|d: Seq<char>| (path_join(target_dir, expand_spec(d, sep)), path_join(literal_path, d)))
}

pub open spec fn literal_result(
    home: Seq<char>,
    sep: Seq<char>,
    host_path: Seq<char>,
    l: LiteralListing,
) -> Result<Seq<(Seq<char>, Seq<char>)>, ErrorView> {
    let lpath = path_join(host_path, l.name@);
    match l.entries {
        Ok(es) => Ok(entry_mappings(target_dir_spec(home, l.name@, sep), lpath, views_of(es@), sep)),
        Err(m) => Err(ErrorView::DirectoryTraversal(lpath, m@)),
    }
}

/// The mappings of the literal directories taken in `order`, stopping at the first
/// error.
pub open spec fn fold_literals(
    home: Seq<char>,
    sep: Seq<char>,
    host_path: Seq<char>,
    ls: Seq<LiteralListing>,
    order: Seq<(Seq<char>, usize)>,
) -> Result<Seq<(Seq<char>, Seq<char>)>, ErrorView>
    decreases order.len(),
{
    if order.len() == 0 {
        Ok(Seq::empty())
    } else {
        match fold_literals(home, sep, host_path, ls, order.drop_last()) {
            Err(e) => Err(e),
            Ok(ms) => match literal_result(home, sep, host_path, ls[order.last().1 as int]) {
                Err(e) => Err(e),
                Ok(m) => Ok(ms + m),
            },
        }
    }
}

pub open spec fn host_result(
    home: Seq<char>,
    sep: Seq<char>,
    config_dir: Seq<char>,
    h: HostListing,
) -> Result<Seq<(Seq<char>, Seq<char>)>, ErrorView> {
    let hpath = path_join(config_dir, h.name@);
    if !h.is_dir {
        Ok(Seq::empty())
    } else {
        match h.literal_dirs {
            Err(m) => Err(ErrorView::DirectoryTraversal(hpath, m@)),
            Ok(ls) => fold_literals(home, sep, hpath, ls@, sort_spec::<LiteralSlot>(selected_literals(ls@))),
        }
    }
}

/// The mappings of the host directories taken in `order`, stopping at the first
/// error.
pub open spec fn fold_hosts(
    home: Seq<char>,
    sep: Seq<char>,
    config_dir: Seq<char>,
    hs: Seq<HostListing>,
    order: Seq<(Seq<char>, u8, usize)>,
) -> Result<Seq<(Seq<char>, Seq<char>)>, ErrorView>
    decreases order.len(),
{
    if order.len() == 0 {
        Ok(Seq::empty())
    } else {
        match fold_hosts(home, sep, config_dir, hs, order.drop_last()) {
            Err(e) => Err(e),
            Ok(ms) => match host_result(home, sep, config_dir, hs[order.last().2 as int]) {
                Err(e) => Err(e),
                Ok(m) => Ok(ms + m),
            },
        }
    }
}

/// All mappings of the dotfiles repo: host directories sorted by name (then
/// group), literal directories sorted by name, entries in the order read.
pub open spec fn mappings_spec(ctx: DotsymContext, listing: DotfilesListing) -> Result<
    Seq<(Seq<char>, Seq<char>)>,
    ErrorView,
> {
    let cd = config_dir_spec(ctx.config.dir@, ctx.home_dir@);
    if !listing.exists || !listing.is_dir {
        Err(ErrorView::DotfilesDirectoryNotFound(cd))
    } else {
        match listing.hosts {
            Err(m) => Err(ErrorView::DirectoryTraversal(cd, m@)),
            Ok(hs) => fold_hosts(
                ctx.home_dir@,
                ctx.config.separator@,
                cd,
                hs@,
                sort_spec::<HostSlot>(selected_hosts(hs@, ctx.hostname@)),
            ),
        }
    }
}

/// A result of mappings against its specification.
pub open spec fn mappings_match(
    r: Result<Vec<SymlinkMapping>, DotsymError>,
    s: Result<Seq<(Seq<char>, Seq<char>)>, ErrorView>,
) -> bool {
    match r {
        Ok(v) => s == Ok::<Seq<(Seq<char>, Seq<char>)>, ErrorView>(views_of(v@)),
        Err(e) => s == Err::<Seq<(Seq<char>, Seq<char>)>, ErrorView>(e@),
    }
}

/// The group of a host directory name.
pub fn host_class_exec(name: &String, host: &String) -> (r: Option<u8>)
    ensures
        r == host_class(name@, host@),
{
    let n = to_chars(name.as_str());
    let d = to_chars("dotsym");
    let dp = to_chars("dotsym__");
    if chars_eq(&n, &d) || starts_with(&n, &dp) {
        return Some(0u8);
    }
    let h = to_chars(host.as_str());
    let mut hp = h.clone();
    let us = to_chars("__");
    append_chars(&mut hp, &us);
    if chars_eq(&n, &h) || starts_with(&n, &hp) {
        Some(1u8)
    } else {
        None
    }
}


proof fn lemma_selected_hosts_index(hs: Seq<HostListing>, host: Seq<char>)
    requires
        hs.len() <= usize::MAX,
    ensures
        forall|k: int| 0 <= k < selected_hosts(hs, host).len() ==> (#[trigger] selected_hosts(hs, host)[k]).2 < hs.len(),
    decreases hs.len(),
{
    if hs.len() > 0 {
        lemma_selected_hosts_index(hs.drop_last(), host);
        let r = selected_hosts(hs.drop_last(), host);
        assert forall|k: int| 0 <= k < selected_hosts(hs, host).len() implies (#[trigger] selected_hosts(hs, host)[k]).2 < hs.len() by {
            if k < r.len() {
                assert(selected_hosts(hs, host)[k] == r[k]);
            }
        }
    }
}

proof fn lemma_selected_literals_index(ls: Seq<LiteralListing>)
    requires
        ls.len() <= usize::MAX,
    ensures
        forall|k: int| 0 <= k < selected_literals(ls).len() ==> (#[trigger] selected_literals(ls)[k]).1 < ls.len(),
    decreases ls.len(),
{
    if ls.len() > 0 {
        lemma_selected_literals_index(ls.drop_last());
        let r = selected_literals(ls.drop_last());
        assert forall|k: int| 0 <= k < selected_literals(ls).len() implies (#[trigger] selected_literals(ls)[k]).1 < ls.len() by {
            if k < r.len() {
                assert(selected_literals(ls)[k] == r[k]);
            }
        }
    }
}

proof fn lemma_fold_literals_err(
    home: Seq<char>,
    sep: Seq<char>,
    host_path: Seq<char>,
    ls: Seq<LiteralListing>,
    order: Seq<(Seq<char>, usize)>,
    k: int,
)
    requires
        0 <= k <= order.len(),
        fold_literals(home, sep, host_path, ls, order.take(k)) is Err,
    ensures
        fold_literals(home, sep, host_path, ls, order) == fold_literals(home, sep, host_path, ls, order.take(k)),
    decreases order.len() - k,
{
    if k < order.len() {
        assert(order.take(k + 1).drop_last() == order.take(k));
        lemma_fold_literals_err(home, sep, host_path, ls, order, k + 1);
    } else {
        assert(order.take(k) == order);
    }
}

proof fn lemma_fold_hosts_err(
    home: Seq<char>,
    sep: Seq<char>,
    config_dir: Seq<char>,
    hs: Seq<HostListing>,
    order: Seq<(Seq<char>, u8, usize)>,
    k: int,
)
    requires
        0 <= k <= order.len(),
        fold_hosts(home, sep, config_dir, hs, order.take(k)) is Err,
    ensures
        fold_hosts(home, sep, config_dir, hs, order) == fold_hosts(home, sep, config_dir, hs, order.take(k)),
    decreases order.len() - k,
{
    if k < order.len() {
        assert(order.take(k + 1).drop_last() == order.take(k));
        lemma_fold_hosts_err(home, sep, config_dir, hs, order, k + 1);
    } else {
        assert(order.take(k) == order);
    }
}

fn select_hosts(hs: &Vec<HostListing>, host: &String) -> (r: Vec<HostSlot>)
    ensures
        views_of(r@) == selected_hosts(hs@, host@),
{
    let mut out: Vec<HostSlot> = Vec::new();
    let n = hs.len();
    for i in 0..n
        invariant
            n == hs@.len(),
            views_of(out@) == selected_hosts(hs@.take(i as int), host@),
    {
        assert(hs@.take(i + 1).drop_last() == hs@.take(i as int));
        let c = host_class_exec(&hs[i].name, host);
        match c {
            Some(cl) => {
                let ghost before = out@;
                out.push(HostSlot { name: hs[i].name.clone(), class: cl, index: i });
                assert(views_of(out@) =~= views_of(before).push((hs@[i as int].name@, cl, i)));
            },
            None => {},
        }
    }
    assert(hs@.take(n as int) == hs@);
    out
}

fn select_literals(ls: &Vec<LiteralListing>) -> (r: Vec<LiteralSlot>)
    ensures
        views_of(r@) == selected_literals(ls@),
{
    let mut out: Vec<LiteralSlot> = Vec::new();
    let n = ls.len();
    for i in 0..n
        invariant
            n == ls@.len(),
            views_of(out@) == selected_literals(ls@.take(i as int)),
    {
        assert(ls@.take(i + 1).drop_last() == ls@.take(i as int));
        if ls[i].is_dir {
            let ghost before = out@;
            out.push(LiteralSlot { name: ls[i].name.clone(), index: i });
            assert(views_of(out@) =~= views_of(before).push((ls@[i as int].name@, i)));
        }
    }
    assert(ls@.take(n as int) == ls@);
    out
}

impl DotsymContext {
    /// The mappings of the entries of one literal directory.
    fn entries_mappings(&self, target_dir: &Vec<char>, literal_path: &Vec<char>, es: &Vec<String>) -> (r: Vec<
        SymlinkMapping,
    >)
        ensures
            views_of(r@) == entry_mappings(target_dir@, literal_path@, views_of(es@), self.config.separator@),
    {
        let mut out: Vec<SymlinkMapping> = Vec::new();
        let n = es.len();
        for i in 0..n
            invariant
                n == es@.len(),
                views_of(out@) == entry_mappings(
                    target_dir@,
                    literal_path@,
                    views_of(es@).take(i as int),
                    self.config.separator@,
                ),
        {
            let d = &es[i];
            let e = self.expand_path(d.as_str());
            let ev = to_chars(e.as_str());
            let dv = to_chars(d.as_str());
            let src = join_path(target_dir, &ev);
            let dst = join_path(literal_path, &dv);
            let ghost before = out@;
            out.push(SymlinkMapping { source: from_chars(&src), destination: from_chars(&dst) });
            assert(views_of(es@).take(i + 1) =~= views_of(es@).take(i as int).push(es@[i as int]@));
            assert(views_of(out@) =~= views_of(before).push((src@, dst@)));
        }
        assert(views_of(es@).take(n as int) =~= views_of(es@));
        out
    }

    /// The mappings of the literal directories of one host directory.
    fn literal_mappings(&self, host_path: &Vec<char>, ls: &Vec<LiteralListing>) -> (r: Result<
        Vec<SymlinkMapping>,
        DotsymError,
    >)
        ensures
            mappings_match(
                r,
                fold_literals(
                    self.home_dir@,
                    self.config.separator@,
                    host_path@,
                    ls@,
                    sort_spec::<LiteralSlot>(selected_literals(ls@)),
                ),
            ),
    {
        let sel = select_literals(ls);
        let order = sort_strict(sel);
        let ghost ord = views_of(order@);
        let nl = ls.len();
        proof {
            lemma_selected_literals_index(ls@);
        }
        let mut out: Vec<SymlinkMapping> = Vec::new();
        let n = order.len();
        let home = to_chars(self.home_dir.as_str());
        assert(ord.take(0) =~= Seq::<(Seq<char>, usize)>::empty());
        assert(views_of(out@) =~= Seq::<(Seq<char>, Seq<char>)>::empty());
        for i in 0..n
            invariant
                n == order@.len(),
                ord == views_of(order@),
                ord == sort_spec::<LiteralSlot>(selected_literals(ls@)),
                ord.to_multiset() == selected_literals(ls@).to_multiset(),
                forall|k: int| 0 <= k < selected_literals(ls@).len() ==> (#[trigger] selected_literals(ls@)[k]).1 < ls@.len(),
                home@ == self.home_dir@,
                fold_literals(self.home_dir@, self.config.separator@, host_path@, ls@, ord.take(i as int))
                    == Ok::<Seq<(Seq<char>, Seq<char>)>, ErrorView>(views_of(out@)),
        {
            proof {
                lemma_same_multiset_member(ord, selected_literals(ls@), i as int);
                assert(ord[i as int] == order@[i as int]@);
            }
            let idx = order[i].index;
            let l = &ls[idx];
            let lname = to_chars(l.name.as_str());
            let lpath = join_path(host_path, &lname);
            assert(ord.take(i + 1).drop_last() == ord.take(i as int));
            assert(ord.take(i + 1).last() == ord[i as int]);
            match &l.entries {
                Err(m) => {
                    let e = DotsymError::DirectoryTraversal { path: from_chars(&lpath), source: m.clone() };
                    proof {
                        lemma_fold_literals_err(
                            self.home_dir@,
                            self.config.separator@,
                            host_path@,
                            ls@,
                            ord,
                            i + 1,
                        );
                    }
                    return Err(e);
                },
                Ok(es) => {
                    let e = self.expand_path(l.name.as_str());
                    let target = if e.as_str().is_empty() {
                        home.clone()
                    } else {
                        let ev = to_chars(e.as_str());
                        join_path(&home, &ev)
                    };
                    proof {
                        if e@.len() == 0 {
                        } else {
                        }
                    }
                    let m = self.entries_mappings(&target, &lpath, es);
                    let ghost before = out@;
                    let mut m2 = m;
                    out.append(&mut m2);
                    assert(views_of(out@) =~= views_of(before) + views_of(m@));
                },
            }
        }
        assert(ord.take(n as int) == ord);
        Ok(out)
    }

    /// The links that the dotfiles repo asks for, read from `listing`: host
    /// directories named `dotsym`, `dotsym__*`, this host's name or `<host>__*`,
    /// sorted by name (then group); their literal directories sorted by name; the
    /// entries of each literal directory in the order read. The dotfiles directory
    /// must exist and be a directory; a directory that could not be read is an error.
    pub fn get_symlink_mappings(&self, listing: &DotfilesListing) -> (r: Result<Vec<SymlinkMapping>, DotsymError>)
        ensures
            mappings_match(r, mappings_spec(*self, *listing)),
    {
        let cd = self.config_dir();
        if !listing.exists || !listing.is_dir {
            return Err(DotsymError::DotfilesDirectoryNotFound { path: cd });
        }
        let hs = match &listing.hosts {
            Err(m) => {
                return Err(DotsymError::DirectoryTraversal { path: cd, source: m.clone() });
            },
            Ok(hs) => hs,
        };
        let cdv = to_chars(cd.as_str());
        let sel = select_hosts(hs, &self.hostname);
        let order = sort_strict(sel);
        let ghost ord = views_of(order@);
        let nh = hs.len();
        proof {
            lemma_selected_hosts_index(hs@, self.hostname@);
        }
        let mut out: Vec<SymlinkMapping> = Vec::new();
        let n = order.len();
        assert(ord.take(0) =~= Seq::<(Seq<char>, u8, usize)>::empty());
        assert(views_of(out@) =~= Seq::<(Seq<char>, Seq<char>)>::empty());
        for i in 0..n
            invariant
                n == order@.len(),
                ord == views_of(order@),
                ord == sort_spec::<HostSlot>(selected_hosts(hs@, self.hostname@)),
                ord.to_multiset() == selected_hosts(hs@, self.hostname@).to_multiset(),
                forall|k: int|
                    0 <= k < selected_hosts(hs@, self.hostname@).len() ==> (#[trigger] selected_hosts(
                        hs@,
                        self.hostname@,
                    )[k]).2 < hs@.len(),
                cdv@ == config_dir_spec(self.config.dir@, self.home_dir@),
                mappings_spec(*self, *listing) == fold_hosts(self.home_dir@, self.config.separator@, cdv@, hs@, ord),
                fold_hosts(self.home_dir@, self.config.separator@, cdv@, hs@, ord.take(i as int))
                    == Ok::<Seq<(Seq<char>, Seq<char>)>, ErrorView>(views_of(out@)),
        {
            proof {
                lemma_same_multiset_member(ord, selected_hosts(hs@, self.hostname@), i as int);
                assert(ord[i as int] == order@[i as int]@);
            }
            let idx = order[i].index;
            let h = &hs[idx];
            assert(ord.take(i + 1).drop_last() == ord.take(i as int));
            assert(ord.take(i + 1).last() == ord[i as int]);
            if h.is_dir {
                let hname = to_chars(h.name.as_str());
                let hpath = join_path(&cdv, &hname);
                match &h.literal_dirs {
                    Err(m) => {
                        let e = DotsymError::DirectoryTraversal { path: from_chars(&hpath), source: m.clone() };
                        proof {
                            lemma_fold_hosts_err(self.home_dir@, self.config.separator@, cdv@, hs@, ord, i + 1);
                            assert(fold_hosts(self.home_dir@, self.config.separator@, cdv@, hs@, ord)
                                == Err::<Seq<(Seq<char>, Seq<char>)>, ErrorView>(e@));
                        }
                        return Err(e);
                    },
                    Ok(ls) => {
                        match self.literal_mappings(&hpath, ls) {
                            Err(e) => {
                                proof {
                                    lemma_fold_hosts_err(
                                        self.home_dir@,
                                        self.config.separator@,
                                        cdv@,
                                        hs@,
                                        ord,
                                        i + 1,
                                    );
                                }
                                return Err(e);
                            },
                            Ok(m) => {
                                let ghost before = out@;
                                let mut m2 = m;
                                out.append(&mut m2);
                                assert(views_of(out@) =~= views_of(before) + views_of(m@));
                            },
                        }
                    },
                }
            } else {
                assert(views_of(out@) =~= views_of(out@) + Seq::<(Seq<char>, Seq<char>)>::empty());
            }
        }
        assert(ord.take(n as int) == ord);
        Ok(out)
    }
}

/// `d` is an entry of a directory of `dir`: `dir`, one name, then another.
pub open spec fn entry_path_in(d: Seq<char>, dir: Seq<char>) -> bool {
    exists|x: Seq<char>, y: Seq<char>| d == #[trigger] path_join(path_join(dir, x), y)
}

proof fn lemma_selected_hosts_members(hs: Seq<HostListing>, host: Seq<char>)
    requires
        hs.len() <= usize::MAX,
    ensures
        forall|k: int|
            0 <= k < selected_hosts(hs, host).len() ==> (#[trigger] selected_hosts(hs, host)[k]).2 < hs.len()
                && host_class(hs[selected_hosts(hs, host)[k].2 as int].name@, host) is Some,
    decreases hs.len(),
{
    if hs.len() > 0 {
        let dl = hs.drop_last();
        lemma_selected_hosts_members(dl, host);
        let r = selected_hosts(dl, host);
        assert forall|k: int| 0 <= k < selected_hosts(hs, host).len() implies (#[trigger] selected_hosts(hs, host)[k]).2
            < hs.len() && host_class(hs[selected_hosts(hs, host)[k].2 as int].name@, host) is Some by {
            if k < r.len() {
                assert(selected_hosts(hs, host)[k] == r[k]);
                assert(hs[r[k].2 as int] == dl[r[k].2 as int]);
            } else {
                assert(hs[hs.len() - 1] == hs.last());
            }
        }
    }
}

proof fn lemma_fold_literals_shape(
    home: Seq<char>,
    sep: Seq<char>,
    host_path: Seq<char>,
    ls: Seq<LiteralListing>,
    order: Seq<(Seq<char>, usize)>,
)
    requires
        fold_literals(home, sep, host_path, ls, order) is Ok,
    ensures
        forall|i: int|
            0 <= i < fold_literals(home, sep, host_path, ls, order)->Ok_0.len() ==> entry_path_in(
                (#[trigger] fold_literals(home, sep, host_path, ls, order)->Ok_0[i]).1,
                host_path,
            ),
    decreases order.len(),
{
    if order.len() > 0 {
        let dl = order.drop_last();
        lemma_fold_literals_shape(home, sep, host_path, ls, dl);
        let ms = fold_literals(home, sep, host_path, ls, dl)->Ok_0;
        let l = ls[order.last().1 as int];
        let lpath = path_join(host_path, l.name@);
        let es = views_of(l.entries->Ok_0@);
        let m = literal_result(home, sep, host_path, l)->Ok_0;
        assert(m == entry_mappings(target_dir_spec(home, l.name@, sep), lpath, es, sep));
        let all = fold_literals(home, sep, host_path, ls, order)->Ok_0;
        assert(all == ms + m);
        assert forall|i: int| 0 <= i < all.len() implies entry_path_in((#[trigger] all[i]).1, host_path) by {
            if i < ms.len() {
                assert(all[i] == ms[i]);
            } else {
                let j = i - ms.len();
                assert(all[i] == m[j]);
                assert(m[j].1 == path_join(path_join(host_path, l.name@), es[j]));
            }
        }
    }
}

/// `d` is an entry path in a host directory of `hs` that is read for `host`.
spec fn from_read_host(d: Seq<char>, config_dir: Seq<char>, hs: Seq<HostListing>, host: Seq<char>) -> bool {
    exists|hi: int|
        0 <= hi < hs.len() && host_class((#[trigger] hs[hi]).name@, host) is Some && entry_path_in(
            d,
            path_join(config_dir, hs[hi].name@),
        )
}

proof fn lemma_fold_hosts_shape(
    home: Seq<char>,
    sep: Seq<char>,
    config_dir: Seq<char>,
    hs: Seq<HostListing>,
    order: Seq<(Seq<char>, u8, usize)>,
    host: Seq<char>,
)
    requires
        fold_hosts(home, sep, config_dir, hs, order) is Ok,
        forall|k: int|
            0 <= k < order.len() ==> (#[trigger] order[k]).2 < hs.len() && host_class(hs[order[k].2 as int].name@, host)
                is Some,
    ensures
        forall|i: int|
            0 <= i < fold_hosts(home, sep, config_dir, hs, order)->Ok_0.len() ==> from_read_host(
                (#[trigger] fold_hosts(home, sep, config_dir, hs, order)->Ok_0[i]).1,
                config_dir,
                hs,
                host,
            ),
    decreases order.len(),
{
    if order.len() > 0 {
        let dl = order.drop_last();
        assert forall|k: int| 0 <= k < dl.len() implies (#[trigger] dl[k]).2 < hs.len() && host_class(
            hs[dl[k].2 as int].name@,
            host,
        ) is Some by {
            assert(dl[k] == order[k]);
        }
        lemma_fold_hosts_shape(home, sep, config_dir, hs, dl, host);
        let ms = fold_hosts(home, sep, config_dir, hs, dl)->Ok_0;
        let hi = order.last().2 as int;
        assert(order[order.len() - 1] == order.last());
        let h = hs[hi];
        let hpath = path_join(config_dir, h.name@);
        let m = host_result(home, sep, config_dir, h)->Ok_0;
        let all = fold_hosts(home, sep, config_dir, hs, order)->Ok_0;
        assert(all == ms + m);
        if h.is_dir {
            let ls = h.literal_dirs->Ok_0@;
            lemma_fold_literals_shape(home, sep, hpath, ls, sort_spec::<LiteralSlot>(selected_literals(ls)));
        }
        assert forall|i: int| 0 <= i < all.len() implies from_read_host((#[trigger] all[i]).1, config_dir, hs, host) by {
            if i < ms.len() {
                assert(all[i] == ms[i]);
            } else {
                assert(all[i] == m[i - ms.len()]);
                assert(entry_path_in(all[i].1, hpath));
                assert(host_class(hs[hi].name@, host) is Some);
                assert(0 <= hi < hs.len());
            }
        }
    }
}

/// Only this host's directories and the generic ones give links: every mapping's
/// destination is an entry of a literal directory inside a host directory whose
/// name is `dotsym`, begins with `dotsym__`, is the host name, or is the host name
/// followed by `__`. A directory whose name merely begins with the host name (such
/// as the host name followed by `2`) gives none.
pub proof fn lemma_mappings_only_from_host_dirs(ctx: DotsymContext, listing: DotfilesListing, i: int)
    requires
        mappings_spec(ctx, listing) is Ok,
        0 <= i < mappings_spec(ctx, listing)->Ok_0.len(),
    ensures
        listing.hosts is Ok,
        exists|hi: int|
            #![trigger listing.hosts->Ok_0@[hi]]
            0 <= hi < listing.hosts->Ok_0@.len() && ({
                let n = listing.hosts->Ok_0@[hi].name@;
                let h = ctx.hostname@;
                n == "dotsym"@ || has_prefix(n, "dotsym__"@) || n == h || has_prefix(n, h + "__"@)
            }) && entry_path_in(
                mappings_spec(ctx, listing)->Ok_0[i].1,
                path_join(config_dir_spec(ctx.config.dir@, ctx.home_dir@), listing.hosts->Ok_0@[hi].name@),
            ),
{
    let cd = config_dir_spec(ctx.config.dir@, ctx.home_dir@);
    let hv = listing.hosts->Ok_0;
    let hs = hv@;
    assert(hs.len() == hv.len());
    let host = ctx.hostname@;
    let sel = selected_hosts(hs, host);
    let order = sort_spec::<HostSlot>(sel);
    lemma_sort_spec::<HostSlot>(sel);
    lemma_selected_hosts_members(hs, host);
    assert forall|k: int| 0 <= k < order.len() implies (#[trigger] order[k]).2 < hs.len() && host_class(
        hs[order[k].2 as int].name@,
        host,
    ) is Some by {
        lemma_same_multiset_member(order, sel, k);
        let j = choose|j: int| 0 <= j < sel.len() && sel[j] == order[k];
        assert(sel[j].2 < hs.len());
    }
    lemma_fold_hosts_shape(ctx.home_dir@, ctx.config.separator@, cd, hs, order, host);
    let ms = mappings_spec(ctx, listing)->Ok_0;
    assert(ms == fold_hosts(ctx.home_dir@, ctx.config.separator@, cd, hs, order)->Ok_0);
    assert(from_read_host(ms[i].1, cd, hs, host));
    let hi = choose|hi: int|
        0 <= hi < hs.len() && host_class((#[trigger] hs[hi]).name@, host) is Some && entry_path_in(
            ms[i].1,
            path_join(cd, hs[hi].name@),
        );
    assert(listing.hosts->Ok_0@[hi] == hs[hi]);
}

/// The group of a host directory, said in words: the generic directories are
/// `dotsym` and `dotsym__*`; this host's are its name and `<host>__*`; no other
/// directory is read.
pub proof fn lemma_host_class_names(name: Seq<char>, host: Seq<char>)
    ensures
        (host_class(name, host) is Some) == (name == "dotsym"@ || has_prefix(name, "dotsym__"@) || name == host
            || has_prefix(name, host + "__"@)),
        host_class(name, host) == Some(0u8) <==> (name == "dotsym"@ || has_prefix(name, "dotsym__"@)),
{
}

} // verus!
