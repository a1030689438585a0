//! A model of Unix paths as character sequences, following `std::path`:
//! a path is read as its components (root, a leading `.`, `..`, and names),
//! and two paths are the same path when their components agree.
use vstd::prelude::*;
use crate::text::{append_chars, chars_eq};


verus! {

/// The path separator.
pub open spec fn slash() -> Seq<char> {
    seq!['/']
}

/// The component that stands for the root directory.
pub open spec fn root_comp() -> Seq<char> {
    seq!['/']
}

/// The component that stands for a leading `.`.
pub open spec fn cur_comp() -> Seq<char> {
    seq!['.']
}

/// The component `..`.
pub open spec fn parent_comp() -> Seq<char> {
    seq!['.', '.']
}

pub open spec fn is_abs(p: Seq<char>) -> bool {
    p.len() > 0 && p[0] == '/'
}

/// The pieces of `p` between `/` characters, empty pieces included.
pub open spec fn pieces(p: Seq<char>) -> Seq<Seq<char>>
    decreases p.len(),
{
    if p.len() == 0 {
        seq![Seq::<char>::empty()]
    } else {
        let r = pieces(p.drop_last());
        if p.last() == '/' {
            r.push(Seq::<char>::empty())
        } else {
            r.update(r.len() - 1, r.last().push(p.last()))
        }
    }
}

/// A piece that forms a component of its own (not empty, not `.`).
pub open spec fn is_kept_piece(x: Seq<char>) -> bool {
    x.len() > 0 && x != cur_comp()
}

pub open spec fn kept_pieces(ps: Seq<Seq<char>>) -> Seq<Seq<char>>
    decreases ps.len(),
{
    if ps.len() == 0 {
        Seq::empty()
    } else {
        let r = kept_pieces(ps.drop_last());
        if is_kept_piece(ps.last()) {
            r.push(ps.last())
        } else {
            r
        }
    }
}

/// A relative path that begins with the component `.`.
pub open spec fn starts_cur_dir(p: Seq<char>) -> bool {
    p.len() >= 1 && p[0] == '.' && (p.len() == 1 || p[1] == '/')
}

pub open spec fn lead_comps(p: Seq<char>) -> Seq<Seq<char>> {
    if is_abs(p) {
        seq![root_comp()]
    } else if starts_cur_dir(p) {
        seq![cur_comp()]
    } else {
        Seq::empty()
    }
}

/// `Path::components`: the root, a leading `.`, then every piece that is neither
/// empty nor `.`.
pub open spec fn comps(p: Seq<char>) -> Seq<Seq<char>> {
    lead_comps(p) + kept_pieces(pieces(p))
}

pub proof fn lemma_pieces_nonempty(p: Seq<char>)
    ensures
        pieces(p).len() >= 1,
    decreases p.len(),
{
    if p.len() > 0 {
        lemma_pieces_nonempty(p.drop_last());
    }
}

/// The contents of a list of character vectors.
pub open spec fn views(v: Seq<Vec<char>>) -> Seq<Seq<char>> {
    v.map_values(|x: Vec<char>| x@)
}

/// `Path::components`, each component as its characters.
pub fn components(p: &Vec<char>) -> (r: Vec<Vec<char>>)
    ensures
        views(r@) == comps(p@),
{
    let n = p.len();
    let mut out: Vec<Vec<char>> = Vec::new();
    if n > 0 && p[0] == '/' {
        let mut r: Vec<char> = Vec::new();
        r.push('/');
        out.push(r);
        assert(views(out@) =~= seq![root_comp()]);
    } else if n > 0 && p[0] == '.' && (n == 1 || p[1] == '/') {
        let mut r: Vec<char> = Vec::new();
        r.push('.');
        out.push(r);
        assert(views(out@) =~= seq![cur_comp()]);
    } else {
        assert(views(out@) =~= Seq::<Seq<char>>::empty());
    }
    let ghost lead = views(out@);
    assert(lead == lead_comps(p@));
    let ghost mut all: Seq<Seq<char>> = Seq::empty();
    let mut cur: Vec<char> = Vec::new();
    assert(p@.take(0) == Seq::<char>::empty());
    for i in 0..n
        invariant
            n == p@.len(),
            pieces(p@.take(i as int)) == all.push(cur@),
            views(out@) == lead + kept_pieces(all),
    {
        let c = p[i];
        assert(p@.take(i + 1).drop_last() == p@.take(i as int));
        assert(p@.take(i + 1).last() == c);
        if c == '/' {
            let ghost old_all = all;
            proof {
                all = all.push(cur@);
                assert(all.drop_last() == old_all);
            }
            if cur.len() > 0 && !(cur.len() == 1 && cur[0] == '.') {
                assert(is_kept_piece(cur@)) by {
                    if cur@ == cur_comp() {
                        assert(cur@[0] == '.');
                    }
                }
                let ghost before = out@;
                let ghost cv = cur@;
                out.push(cur);
                assert(views(out@) =~= views(before).push(cv));
                assert(views(out@) =~= lead + kept_pieces(all));
            } else {
                assert(!is_kept_piece(cur@)) by {
                    if cur@.len() == 1 {
                        assert(cur@ =~= cur_comp());
                    }
                }
            }
            cur = Vec::new();
        } else {
            let ghost before = cur@;
            cur.push(c);
            assert(all.push(before).update(all.len() as int, cur@) == all.push(cur@));
        }
    }
    assert(p@.take(n as int) == p@);
    let ghost old_all = all;
    proof {
        all = all.push(cur@);
        assert(all.drop_last() == old_all);
    }
    if cur.len() > 0 && !(cur.len() == 1 && cur[0] == '.') {
        let ghost before = out@;
        let ghost cv = cur@;
        assert(is_kept_piece(cv)) by {
            if cv == cur_comp() {
                assert(cv[0] == '.');
            }
        }
        out.push(cur);
        assert(views(out@) =~= views(before).push(cv));
        assert(views(out@) =~= lead + kept_pieces(all));
    } else {
        assert(!is_kept_piece(cur@)) by {
            if cur@.len() == 1 {
                assert(cur@ =~= cur_comp());
            }
        }
    }
    out
}


/// The pieces of `cs` joined with `sep` between neighbours (`[T]::join`).
pub open spec fn join_with(cs: Seq<Seq<char>>, sep: Seq<char>) -> Seq<char>
    decreases cs.len(),
{
    if cs.len() == 0 {
        Seq::empty()
    } else if cs.len() == 1 {
        cs[0]
    } else {
        join_with(cs.drop_last(), sep) + sep + cs.last()
    }
}

/// `Path::join`: an absolute `rel` replaces `base`; otherwise `rel` is appended,
/// with a `/` between them unless `base` is empty or already ends in `/`.
pub open spec fn path_join(base: Seq<char>, rel: Seq<char>) -> Seq<char> {
    if is_abs(rel) {
        rel
    } else if base.len() == 0 || base.last() == '/' {
        base + rel
    } else {
        base + slash() + rel
    }
}

/// The names left after resolving `..` against earlier names, left to right;
/// the root and `.` are dropped, and a `..` with nothing before it is dropped.
pub open spec fn norm_stack(cs: Seq<Seq<char>>) -> Seq<Seq<char>>
    decreases cs.len(),
{
    if cs.len() == 0 {
        Seq::empty()
    } else {
        let s = norm_stack(cs.drop_last());
        let c = cs.last();
        if c == root_comp() || c == cur_comp() {
            s
        } else if c == parent_comp() {
            if s.len() > 0 { s.drop_last() } else { s }
        } else {
            s.push(c)
        }
    }
}

/// The root marker of a path: `/` for an absolute path, nothing otherwise.
pub open spec fn root_of(p: Seq<char>) -> Seq<char> {
    if is_abs(p) { slash() } else { Seq::empty() }
}

/// Lexical normalization: `.` and `..` resolved without looking at the file system.
pub open spec fn normalize(p: Seq<char>) -> Seq<char> {
    root_of(p) + join_with(norm_stack(comps(p)), slash())
}

/// Two paths name the same path (`Path == Path`).
pub open spec fn same_path(a: Seq<char>, b: Seq<char>) -> bool {
    comps(a) == comps(b)
}

/// `a` is a prefix of `b`.
pub open spec fn seq_prefix<A>(a: Seq<A>, b: Seq<A>) -> bool {
    a.len() <= b.len() && b.take(a.len() as int) == a
}

/// `Path::starts_with`: the components of `base` begin the components of `p`.
pub open spec fn path_starts_with(p: Seq<char>, base: Seq<char>) -> bool {
    seq_prefix(comps(base), comps(p))
}

/// The components of `p` after those of `base` (`Path::strip_prefix`).
pub open spec fn strip_comps(p: Seq<char>, base: Seq<char>) -> Seq<Seq<char>> {
    comps(p).skip(comps(base).len() as int)
}

/// Writes a list of components back as a path.
pub open spec fn rebuild(cs: Seq<Seq<char>>) -> Seq<char> {
    if cs.len() > 0 && cs[0] == root_comp() {
        slash() + join_with(cs.skip(1), slash())
    } else {
        join_with(cs, slash())
    }
}

/// `Path::parent`: all but the last component, for a path that has a last
/// component other than the root.
pub open spec fn parent_of(p: Seq<char>) -> Option<Seq<char>> {
    let cs = comps(p);
    if cs.len() == 0 || cs.last() == root_comp() {
        None
    } else {
        Some(rebuild(cs.drop_last()))
    }
}

/// A component that is a name (not the root, `.` or `..`).
pub open spec fn is_name(c: Seq<char>) -> bool {
    c != root_comp() && c != cur_comp() && c != parent_comp()
}

/// `Path::file_name`: the last component when it is a name.
pub open spec fn file_name_of(p: Seq<char>) -> Option<Seq<char>> {
    let cs = comps(p);
    if cs.len() > 0 && is_name(cs.last()) {
        Some(cs.last())
    } else {
        None
    }
}

pub fn comp_is(c: &Vec<char>, a: char, b: char, len: usize) -> (r: bool)
    requires
        1 <= len <= 2,
    ensures
        r == (c@ == (if len == 1 { seq![a] } else { seq![a, b] })),
{
    let r = if c.len() != len {
        false
    } else if len == 1 {
        c[0] == a
    } else {
        c[0] == a && c[1] == b
    };
    proof {
        if c@.len() == len {
            if len == 1 {
                assert(r == (c@ =~= seq![a]));
            } else {
                assert(r == (c@ =~= seq![a, b]));
            }
        }
    }
    r
}

pub fn is_root_comp(c: &Vec<char>) -> (r: bool)
    ensures
        r == (c@ == root_comp()),
{
    comp_is(c, '/', '/', 1)
}

pub fn is_cur_comp(c: &Vec<char>) -> (r: bool)
    ensures
        r == (c@ == cur_comp()),
{
    comp_is(c, '.', '.', 1)
}

pub fn is_parent_comp(c: &Vec<char>) -> (r: bool)
    ensures
        r == (c@ == parent_comp()),
{
    comp_is(c, '.', '.', 2)
}

/// Joins `cs[lo..hi]` with `sep` between neighbours.
pub fn join_range(cs: &Vec<Vec<char>>, lo: usize, hi: usize, sep: &Vec<char>) -> (r: Vec<char>)
    requires
        lo <= hi <= cs@.len(),
    ensures
        r@ == join_with(views(cs@).subrange(lo as int, hi as int), sep@),
{
    let mut out: Vec<char> = Vec::new();
    let mut i = lo;
    assert(views(cs@).subrange(lo as int, lo as int) =~= Seq::<Seq<char>>::empty());
    while i < hi
        invariant
            lo <= i <= hi <= cs@.len(),
            out@ == join_with(views(cs@).subrange(lo as int, i as int), sep@),
        decreases hi - i,
    {
        let ghost prev = views(cs@).subrange(lo as int, i as int);
        let ghost next = views(cs@).subrange(lo as int, i + 1);
        assert(next.drop_last() =~= prev);
        assert(next.last() == cs@[i as int]@);
        if i > lo {
            append_chars(&mut out, sep);
        }
        append_chars(&mut out, &cs[i]);
        proof {
            if i == lo {
                assert(prev.len() == 0);
                assert(next.len() == 1);
            }
        }
        i = i + 1;
    }
    out
}

/// `Path::join`.
pub fn join_path(base: &Vec<char>, rel: &Vec<char>) -> (r: Vec<char>)
    ensures
        r@ == path_join(base@, rel@),
{
    if rel.len() > 0 && rel[0] == '/' {
        return rel.clone();
    }
    let mut out = base.clone();
    if !(base.len() == 0 || base[base.len() - 1] == '/') {
        out.push('/');
    }
    append_chars(&mut out, rel);
    proof {
        if !(base@.len() == 0 || base@.last() == '/') {
            assert(base@.push('/') == base@ + slash());
        } else {
        }
    }
    out
}

/// Whether two paths are the same path.
pub fn path_eq(a: &Vec<char>, b: &Vec<char>) -> (r: bool)
    ensures
        r == same_path(a@, b@),
{
    let ca = components(a);
    let cb = components(b);
    if ca.len() != cb.len() {
        assert(comps(a@).len() != comps(b@).len()) by {
            assert(views(ca@).len() == ca@.len());
            assert(views(cb@).len() == cb@.len());
        }
        return false;
    }
    let n = ca.len();
    for i in 0..n
        invariant
            n == ca@.len(),
            n == cb@.len(),
            views(ca@) == comps(a@),
            views(cb@) == comps(b@),
            forall|j: int| 0 <= j < i ==> comps(a@)[j] == comps(b@)[j],
    {
        if !chars_eq(&ca[i], &cb[i]) {
            assert(comps(a@)[i as int] != comps(b@)[i as int]);
            return false;
        }
    }
    assert(comps(a@) =~= comps(b@));
    true
}

/// Whether the components of `base` begin the components of `p`.
pub fn comps_start_with(cp: &Vec<Vec<char>>, cb: &Vec<Vec<char>>) -> (r: bool)
    ensures
        r == seq_prefix(views(cb@), views(cp@)),
{
    if cb.len() > cp.len() {
        return false;
    }
    let n = cb.len();
    for i in 0..n
        invariant
            n == cb@.len(),
            n <= cp@.len(),
            forall|j: int| 0 <= j < i ==> views(cp@)[j] == views(cb@)[j],
    {
        if !chars_eq(&cp[i], &cb[i]) {
            assert(views(cp@).take(n as int)[i as int] != views(cb@)[i as int]);
            return false;
        }
    }
    assert(views(cp@).take(n as int) =~= views(cb@));
    true
}

/// `Path::starts_with`.
pub fn path_starts_with_exec(p: &Vec<char>, base: &Vec<char>) -> (r: bool)
    ensures
        r == path_starts_with(p@, base@),
{
    let cp = components(p);
    let cb = components(base);
    comps_start_with(&cp, &cb)
}

/// The normalized form of a list of components.
pub fn norm_stack_exec(cs: &Vec<Vec<char>>) -> (r: Vec<Vec<char>>)
    ensures
        views(r@) == norm_stack(views(cs@)),
{
    let mut st: Vec<Vec<char>> = Vec::new();
    let n = cs.len();
    assert(views(cs@).take(0) =~= Seq::<Seq<char>>::empty());
    for i in 0..n
        invariant
            n == cs@.len(),
            views(st@) == norm_stack(views(cs@).take(i as int)),
    {
        let ghost pre = views(cs@).take(i as int);
        let ghost nxt = views(cs@).take(i + 1);
        assert(nxt.drop_last() =~= pre);
        assert(nxt.last() == cs@[i as int]@);
        let c = &cs[i];
        if is_root_comp(c) || is_cur_comp(c) {
        } else if is_parent_comp(c) {
            if st.len() > 0 {
                let ghost before = st@;
                st.pop();
                assert(views(st@) =~= views(before).drop_last());
            }
        } else {
            let ghost before = st@;
            st.push(c.clone());
            assert(views(st@) =~= views(before).push(c@));
        }
    }
    assert(views(cs@).take(n as int) =~= views(cs@));
    st
}

/// Lexically normalizes a path, resolving `.` and `..` without touching the
/// file system.
pub fn normalize_chars(p: &Vec<char>) -> (r: Vec<char>)
    ensures
        r@ == normalize(p@),
{
    let cs = components(p);
    let st = norm_stack_exec(&cs);
    let mut out: Vec<char> = Vec::new();
    if p.len() > 0 && p[0] == '/' {
        out.push('/');
        assert(out@ =~= slash());
    } else {
        assert(out@ =~= Seq::<char>::empty());
    }
    let mut sep: Vec<char> = Vec::new();
    sep.push('/');
    assert(sep@ =~= slash());
    let body = join_range(&st, 0, st.len(), &sep);
    assert(views(st@).subrange(0, st@.len() as int) =~= views(st@));
    append_chars(&mut out, &body);
    out
}


/// `p` without trailing `/` characters and trailing `/.` pieces: the end of its
/// last component.
pub open spec fn trim_tail(p: Seq<char>) -> Seq<char>
    decreases p.len(),
{
    if p.len() > 1 && p.last() == '/' {
        trim_tail(p.drop_last())
    } else if p.len() > 1 && p.last() == '.' && p[p.len() - 2] == '/' {
        trim_tail(p.drop_last())
    } else {
        p
    }
}

pub fn trim_tail_exec(p: &Vec<char>) -> (r: Vec<char>)
    ensures
        r@ == trim_tail(p@),
{
    let mut n = p.len();
    assert(p@.take(n as int) == p@);
    while n > 1 && (p[n - 1] == '/' || (p[n - 1] == '.' && p[n - 2] == '/'))
        invariant
            n <= p@.len(),
            trim_tail(p@.take(n as int)) == trim_tail(p@),
        decreases n,
    {
        assert(p@.take(n as int).drop_last() == p@.take(n - 1));
        n = n - 1;
    }
    let mut out: Vec<char> = Vec::new();
    for i in 0..n
        invariant
            n <= p@.len(),
            out@ == p@.take(i as int),
    {
        out.push(p[i]);
        assert(p@.take(i + 1) == p@.take(i as int).push(p@[i as int]));
    }
    out
}

/// `Path::file_name`.
pub fn file_name(p: &Vec<char>) -> (r: Option<Vec<char>>)
    ensures
        match r {
            Some(n) => file_name_of(p@) == Some(n@),
            None => file_name_of(p@) is None,
        },
{
    let cs = components(p);
    let n = cs.len();
    if n == 0 {
        return None;
    }
    let last = &cs[n - 1];
    assert(views(cs@).last() == last@);
    if is_root_comp(last) || is_cur_comp(last) || is_parent_comp(last) {
        None
    } else {
        Some(last.clone())
    }
}


/// `Path::parent`.
pub fn parent(p: &Vec<char>) -> (r: Option<Vec<char>>)
    ensures
        match r {
            Some(q) => parent_of(p@) == Some(q@),
            None => parent_of(p@) is None,
        },
{
    let cs = components(p);
    let n = cs.len();
    assert(views(cs@).len() == n);
    if n == 0 {
        return None;
    }
    assert(views(cs@).last() == cs@[n - 1]@);
    if is_root_comp(&cs[n - 1]) {
        return None;
    }
    let mut sl: Vec<char> = Vec::new();
    sl.push('/');
    assert(sl@ =~= slash());
    let ghost front = views(cs@).drop_last();
    if n > 1 && is_root_comp(&cs[0]) {
        assert(front[0] == cs@[0]@);
        let body = join_range(&cs, 1, n - 1, &sl);
        assert(views(cs@).subrange(1, n - 1) =~= front.skip(1));
        let mut out = sl.clone();
        append_chars(&mut out, &body);
        Some(out)
    } else {
        proof {
            if front.len() > 0 {
                assert(front[0] == cs@[0]@);
            }
        }
        let body = join_range(&cs, 0, n - 1, &sl);
        assert(views(cs@).subrange(0, n - 1) =~= front);
        Some(body)
    }
}

} // verus!
