//! Facts about the path model: how components behave under concatenation, and
//! that lexical normalization is idempotent.
use vstd::prelude::*;
use crate::paths::{pieces, kept_pieces, is_kept_piece, comps, lead_comps, join_with, slash, root_comp, cur_comp,
    parent_comp, norm_stack, normalize, root_of, is_abs, starts_cur_dir, lemma_pieces_nonempty, path_join};

verus! {

/// A component that is a plain name: not empty, no `/`, not `.` or `..`.
pub open spec fn is_plain_name(c: Seq<char>) -> bool {
    c.len() > 0 && !c.contains('/') && c != cur_comp() && c != parent_comp()
}

pub open spec fn all_plain(cs: Seq<Seq<char>>) -> bool {
    forall|i: int| 0 <= i < cs.len() ==> is_plain_name(#[trigger] cs[i])
}

/// The pieces of a path hold no `/`.
proof fn lemma_pieces_no_slash(p: Seq<char>)
    ensures
        forall|i: int| 0 <= i < pieces(p).len() ==> !(#[trigger] pieces(p)[i]).contains('/'),
    decreases p.len(),
{
    lemma_pieces_nonempty(p);
    if p.len() > 0 {
        lemma_pieces_no_slash(p.drop_last());
        lemma_pieces_nonempty(p.drop_last());
        let r = pieces(p.drop_last());
        assert forall|i: int| 0 <= i < pieces(p).len() implies !(#[trigger] pieces(p)[i]).contains('/') by {
            if p.last() == '/' {
                if i < r.len() {
                    assert(pieces(p)[i] == r[i]);
                } else {
                    assert(pieces(p)[i] =~= Seq::<char>::empty());
                }
            } else {
                if i < r.len() - 1 {
                    assert(pieces(p)[i] == r[i]);
                } else {
                    let x = r.last().push(p.last());
                    assert(pieces(p)[i] == x);
                    if x.contains('/') {
                        let k = choose|k: int| 0 <= k < x.len() && x[k] == '/';
                        if k < r.last().len() {
                            assert(r.last()[k] == '/');
                            assert(r[r.len() - 1].contains('/'));
                        }
                    }
                }
            }
        }
    }
}

/// A path without `/` is a single piece.
proof fn lemma_pieces_of_name(s: Seq<char>)
    requires
        !s.contains('/'),
    ensures
        pieces(s) == seq![s],
    decreases s.len(),
{
    if s.len() > 0 {
        let d = s.drop_last();
        assert(!d.contains('/')) by {
            if d.contains('/') {
                let k = choose|k: int| 0 <= k < d.len() && d[k] == '/';
                assert(s[k] == '/');
            }
        }
        lemma_pieces_of_name(d);
        assert(s.last() != '/') by {
            if s.last() == '/' {
                assert(s[s.len() - 1] == '/');
            }
        }
        assert(d.push(s.last()) =~= s);
    } else {
        assert(s =~= Seq::<char>::empty());
    }
}

/// Appending `/` and a name adds one piece.
proof fn lemma_pieces_append_name(a: Seq<char>, n: Seq<char>)
    requires
        !n.contains('/'),
    ensures
        pieces(a + slash() + n) == pieces(a).push(n),
    decreases n.len(),
{
    if n.len() == 0 {
        assert(a + slash() + n =~= a.push('/'));
        assert((a.push('/')).drop_last() =~= a);
        assert(a.push('/').last() == '/');
        assert(n =~= Seq::<char>::empty());
        assert(pieces(a.push('/')) == pieces(a).push(Seq::<char>::empty()));
    } else {
        let d = n.drop_last();
        assert(!d.contains('/')) by {
            if d.contains('/') {
                let k = choose|k: int| 0 <= k < d.len() && d[k] == '/';
                assert(n[k] == '/');
            }
        }
        lemma_pieces_append_name(a, d);
        assert(n.last() != '/') by {
            if n.last() == '/' {
                assert(n[n.len() - 1] == '/');
            }
        }
        let s = a + slash() + n;
        let c = n.last();
        assert(d.push(c) =~= n);
        assert(s.drop_last() =~= a + slash() + d);
        assert(s.last() == c);
        lemma_pieces_nonempty(a);
        let r = pieces(a + slash() + d);
        assert(r == pieces(a).push(d));
        assert(pieces(s) == r.update(r.len() - 1, r.last().push(c)));
        assert(r.last() == d);
        assert(r.update(r.len() - 1, d.push(c)) =~= pieces(a).push(n));
    }
}

/// The pieces of names joined with `/` are the names.
proof fn lemma_pieces_join(names: Seq<Seq<char>>)
    requires
        names.len() > 0,
        forall|i: int| 0 <= i < names.len() ==> !(#[trigger] names[i]).contains('/'),
    ensures
        pieces(join_with(names, slash())) == names,
    decreases names.len(),
{
    if names.len() == 1 {
        lemma_pieces_of_name(names[0]);
        assert(seq![names[0]] =~= names);
    } else {
        let dl = names.drop_last();
        assert forall|i: int| 0 <= i < dl.len() implies !(#[trigger] dl[i]).contains('/') by {
            assert(dl[i] == names[i]);
        }
        lemma_pieces_join(dl);
        lemma_pieces_append_name(join_with(dl, slash()), names.last());
        assert(dl.push(names.last()) =~= names);
    }
}

/// Keeping pieces of a list of plain names keeps them all.
proof fn lemma_kept_plain(names: Seq<Seq<char>>)
    requires
        all_plain(names),
    ensures
        kept_pieces(names) == names,
    decreases names.len(),
{
    if names.len() > 0 {
        let dl = names.drop_last();
        assert(all_plain(dl)) by {
            assert forall|i: int| 0 <= i < dl.len() implies is_plain_name(#[trigger] dl[i]) by {
                assert(dl[i] == names[i]);
            }
        }
        lemma_kept_plain(dl);
        assert(is_plain_name(names[names.len() - 1]));
        assert(dl.push(names.last()) =~= names);
    }
}

/// The components of plain names joined with `/` are the names.
pub proof fn lemma_comps_join(names: Seq<Seq<char>>)
    requires
        all_plain(names),
    ensures
        comps(join_with(names, slash())) == names,
{
    if names.len() == 0 {
        assert(pieces(Seq::<char>::empty()) == seq![Seq::<char>::empty()]);
        assert(kept_pieces(seq![Seq::<char>::empty()]) =~= Seq::<Seq<char>>::empty()) by {
            assert(seq![Seq::<char>::empty()].drop_last() =~= Seq::<Seq<char>>::empty());
            assert(kept_pieces(Seq::<Seq<char>>::empty()) == Seq::<Seq<char>>::empty());
        }
        assert(lead_comps(Seq::<char>::empty()) =~= Seq::<Seq<char>>::empty());
    } else {
        assert forall|i: int| 0 <= i < names.len() implies !(#[trigger] names[i]).contains('/') by {
            assert(is_plain_name(names[i]));
        }
        lemma_pieces_join(names);
        lemma_kept_plain(names);
        let j = join_with(names, slash());
        lemma_join_starts_with_first(names);
        let n0 = names[0];
        assert(is_plain_name(n0));
        assert(j[0] == n0[0]);
        assert(!is_abs(j)) by {
            if j[0] == '/' {
                assert(n0.contains('/')) by {
                    assert(n0[0] == '/');
                }
            }
        }
        assert(!starts_cur_dir(j)) by {
            if starts_cur_dir(j) {
                if n0.len() == 1 {
                    assert(n0 =~= cur_comp());
                } else {
                    assert(j[1] == n0[1]);
                    assert(n0.contains('/')) by {
                        assert(n0[1] == '/');
                    }
                }
            }
        }
        assert(lead_comps(j) =~= Seq::<Seq<char>>::empty());
        assert(comps(j) =~= names);
    }
}

/// A join of names begins with the first name.
pub proof fn lemma_join_starts_with_first(names: Seq<Seq<char>>)
    requires
        names.len() > 0,
    ensures
        join_with(names, slash()).len() >= names[0].len(),
        forall|k: int| 0 <= k < names[0].len() ==> join_with(names, slash())[k] == names[0][k],
    decreases names.len(),
{
    if names.len() > 1 {
        let dl = names.drop_last();
        lemma_join_starts_with_first(dl);
        assert(dl[0] == names[0]);
    }
}

/// The components of a root followed by plain names joined with `/` are the root and
/// the names.
pub proof fn lemma_comps_root_join(names: Seq<Seq<char>>)
    requires
        all_plain(names),
    ensures
        comps(slash() + join_with(names, slash())) == seq![root_comp()] + names,
{
    let j = join_with(names, slash());
    let p = slash() + j;
    assert(is_abs(p));
    if names.len() == 0 {
        assert(p =~= seq!['/']);
        assert(p.drop_last() =~= Seq::<char>::empty());
        assert(pieces(Seq::<char>::empty()) == seq![Seq::<char>::empty()]);
        assert(pieces(p) =~= seq![Seq::<char>::empty(), Seq::<char>::empty()]);
        assert(seq![Seq::<char>::empty(), Seq::<char>::empty()].drop_last() =~= seq![Seq::<char>::empty()]);
        assert(seq![Seq::<char>::empty()].drop_last() =~= Seq::<Seq<char>>::empty());
        assert(kept_pieces(Seq::<Seq<char>>::empty()) == Seq::<Seq<char>>::empty());
        assert(kept_pieces(seq![Seq::<char>::empty()]) == Seq::<Seq<char>>::empty());
        assert(kept_pieces(pieces(p)) =~= Seq::<Seq<char>>::empty());
        assert(comps(p) =~= seq![root_comp()] + names);
    } else {
        assert forall|i: int| 0 <= i < names.len() implies !(#[trigger] names[i]).contains('/') by {
            assert(is_plain_name(names[i]));
        }
        let full = seq![Seq::<char>::empty()] + names;
        assert forall|i: int| 0 <= i < full.len() implies !(#[trigger] full[i]).contains('/') by {
            if i > 0 {
                assert(full[i] == names[i - 1]);
            } else {
                assert(full[i] =~= Seq::<char>::empty());
            }
        }
        lemma_pieces_join(full);
        assert(join_with(full, slash()) =~= p) by {
            lemma_join_prepend_empty(names);
        }
        lemma_kept_prepend_empty(names);
        lemma_kept_plain(names);
        assert(comps(p) =~= seq![root_comp()] + names);
    }
}

proof fn lemma_join_prepend_empty(names: Seq<Seq<char>>)
    requires
        names.len() > 0,
    ensures
        join_with(seq![Seq::<char>::empty()] + names, slash()) == slash() + join_with(names, slash()),
    decreases names.len(),
{
    let full = seq![Seq::<char>::empty()] + names;
    if names.len() == 1 {
        assert(full.drop_last() =~= seq![Seq::<char>::empty()]);
        assert(full.last() == names[0]);
        assert(join_with(seq![Seq::<char>::empty()], slash()) == Seq::<char>::empty());
        assert(Seq::<char>::empty() + slash() + names[0] =~= slash() + names[0]);
    } else {
        lemma_join_prepend_empty(names.drop_last());
        assert(full.drop_last() =~= seq![Seq::<char>::empty()] + names.drop_last());
        assert(full.last() == names.last());
        assert(slash() + join_with(names.drop_last(), slash()) + slash() + names.last() =~= slash() + (join_with(
            names.drop_last(),
            slash(),
        ) + slash() + names.last()));
    }
}

proof fn lemma_kept_prepend_empty(names: Seq<Seq<char>>)
    ensures
        kept_pieces(seq![Seq::<char>::empty()] + names) == kept_pieces(names),
    decreases names.len(),
{
    let full = seq![Seq::<char>::empty()] + names;
    if names.len() == 0 {
        assert(full =~= seq![Seq::<char>::empty()]);
        assert(full.drop_last() =~= Seq::<Seq<char>>::empty());
        assert(kept_pieces(Seq::<Seq<char>>::empty()) == Seq::<Seq<char>>::empty());
    } else {
        lemma_kept_prepend_empty(names.drop_last());
        assert(full.drop_last() =~= seq![Seq::<char>::empty()] + names.drop_last());
        assert(full.last() == names.last());
    }
}

/// Every component after the leading one is a piece that is kept.
proof fn lemma_kept_pieces_shape(ps: Seq<Seq<char>>)
    ensures
        forall|i: int| 0 <= i < kept_pieces(ps).len() ==> is_kept_piece(#[trigger] kept_pieces(ps)[i]) && ps.contains(
            kept_pieces(ps)[i],
        ),
    decreases ps.len(),
{
    if ps.len() > 0 {
        lemma_kept_pieces_shape(ps.drop_last());
        let r = kept_pieces(ps.drop_last());
        assert forall|i: int| 0 <= i < kept_pieces(ps).len() implies is_kept_piece(#[trigger] kept_pieces(ps)[i])
            && ps.contains(kept_pieces(ps)[i]) by {
            if i < r.len() {
                assert(kept_pieces(ps)[i] == r[i]);
                let k = choose|k: int| 0 <= k < ps.drop_last().len() && ps.drop_last()[k] == r[i];
                assert(ps[k] == r[i]);
            } else {
                assert(kept_pieces(ps)[i] == ps.last());
                assert(ps[ps.len() - 1] == ps.last());
            }
        }
    }
}

/// What normalizing leaves: only plain names.
proof fn lemma_norm_stack_plain(cs: Seq<Seq<char>>)
    requires
        forall|i: int| 0 <= i < cs.len() ==> (#[trigger] cs[i]).len() > 0 && (cs[i] == root_comp() || !cs[i].contains('/')),
    ensures
        all_plain(norm_stack(cs)),
    decreases cs.len(),
{
    if cs.len() > 0 {
        let dl = cs.drop_last();
        assert forall|i: int| 0 <= i < dl.len() implies (#[trigger] dl[i]).len() > 0 && (dl[i] == root_comp() || !dl[i].contains('/')) by {
            assert(dl[i] == cs[i]);
        }
        lemma_norm_stack_plain(dl);
        let s = norm_stack(dl);
        let c = cs.last();
        assert(c == cs[cs.len() - 1]);
        if c == root_comp() || c == cur_comp() {
        } else if c == parent_comp() {
            if s.len() > 0 {
                assert forall|i: int| 0 <= i < s.drop_last().len() implies is_plain_name(#[trigger] s.drop_last()[i]) by {
                    assert(s.drop_last()[i] == s[i]);
                }
            }
        } else {
            assert forall|i: int| 0 <= i < s.push(c).len() implies is_plain_name(#[trigger] s.push(c)[i]) by {
                if i < s.len() {
                    assert(s.push(c)[i] == s[i]);
                }
            }
        }
    }
}

/// Normalizing plain names (after an optional root) changes nothing.
proof fn lemma_norm_stack_of_plain(lead: Seq<Seq<char>>, names: Seq<Seq<char>>)
    requires
        all_plain(names),
        lead.len() == 0 || lead == seq![root_comp()],
    ensures
        norm_stack(lead + names) == names,
    decreases names.len(),
{
    if names.len() == 0 {
        assert(norm_stack(Seq::<Seq<char>>::empty()) == Seq::<Seq<char>>::empty());
        if lead.len() == 1 {
            assert((lead + names).drop_last() =~= Seq::<Seq<char>>::empty());
            assert((lead + names).last() == root_comp());
        }
        assert(lead + names =~= lead);
    } else {
        let dl = names.drop_last();
        assert(all_plain(dl)) by {
            assert forall|i: int| 0 <= i < dl.len() implies is_plain_name(#[trigger] dl[i]) by {
                assert(dl[i] == names[i]);
            }
        }
        lemma_norm_stack_of_plain(lead, dl);
        assert((lead + names).drop_last() =~= lead + dl);
        assert((lead + names).last() == names.last());
        assert(is_plain_name(names[names.len() - 1]));
        assert(names.last() != root_comp()) by {
            assert(root_comp().contains('/')) by {
                assert(root_comp()[0] == '/');
            }
        }
        assert(dl.push(names.last()) =~= names);
    }
}

/// The components of a path: not empty, and without `/` except the root.
proof fn lemma_comps_shape(p: Seq<char>)
    ensures
        forall|i: int| 0 <= i < comps(p).len() ==> (#[trigger] comps(p)[i]).len() > 0 && (comps(p)[i] == root_comp()
            || !comps(p)[i].contains('/')),
{
    lemma_kept_pieces_shape(pieces(p));
    lemma_pieces_no_slash(p);
    let l = lead_comps(p);
    let k = kept_pieces(pieces(p));
    assert forall|i: int| 0 <= i < comps(p).len() implies (#[trigger] comps(p)[i]).len() > 0 && (comps(p)[i]
        == root_comp() || !comps(p)[i].contains('/')) by {
        if i < l.len() {
            assert(comps(p)[i] == l[i]);
            if is_abs(p) {
            } else {
                assert(l[i] == cur_comp());
                assert(!cur_comp().contains('/')) by {
                    if cur_comp().contains('/') {
                        let j = choose|j: int| 0 <= j < cur_comp().len() && cur_comp()[j] == '/';
                    }
                }
            }
        } else {
            assert(comps(p)[i] == k[i - l.len()]);
            assert(is_kept_piece(k[i - l.len()]));
            let j = choose|j: int| 0 <= j < pieces(p).len() && pieces(p)[j] == k[i - l.len()];
            assert(!pieces(p)[j].contains('/'));
        }
    }
}

/// Lexical normalization leaves only plain names after an optional root.
pub proof fn lemma_normalize_comps(p: Seq<char>)
    ensures
        all_plain(norm_stack(comps(p))),
        comps(normalize(p)) == (if is_abs(p) { seq![root_comp()] } else { Seq::empty() }) + norm_stack(comps(p)),
{
    lemma_comps_shape(p);
    lemma_norm_stack_plain(comps(p));
    let st = norm_stack(comps(p));
    if is_abs(p) {
        lemma_comps_root_join(st);
        assert(normalize(p) == slash() + join_with(st, slash()));
    } else {
        lemma_comps_join(st);
        assert(normalize(p) =~= join_with(st, slash()));
        assert(Seq::<Seq<char>>::empty() + st =~= st);
    }
}

/// Normalizing a path twice gives what normalizing it once gives.
pub proof fn lemma_normalize_idempotent(p: Seq<char>)
    ensures
        normalize(normalize(p)) == normalize(p),
{
    lemma_normalize_comps(p);
    let st = norm_stack(comps(p));
    let lead: Seq<Seq<char>> = if is_abs(p) { seq![root_comp()] } else { Seq::empty() };
    lemma_norm_stack_of_plain(lead, st);
    let q = normalize(p);
    assert(root_of(q) == root_of(p)) by {
        if is_abs(p) {
            assert(q[0] == '/');
        } else {
            assert(q =~= join_with(st, slash()));
            if st.len() > 0 {
                lemma_join_starts_with_first(st);
                assert(is_plain_name(st[0]));
                if q.len() > 0 && q[0] == '/' {
                    assert(st[0][0] == '/');
                    assert(st[0].contains('/'));
                }
            }
        }
    }
}

/// A normalized path holds no `.` or `..` components.
pub proof fn lemma_normalize_plain(p: Seq<char>)
    ensures
        forall|i: int| 0 <= i < comps(normalize(p)).len() ==> (#[trigger] comps(normalize(p))[i]) != cur_comp()
            && comps(normalize(p))[i] != parent_comp(),
{
    lemma_normalize_comps(p);
    let st = norm_stack(comps(p));
    let lead: Seq<Seq<char>> = if is_abs(p) { seq![root_comp()] } else { Seq::empty() };
    assert forall|i: int| 0 <= i < comps(normalize(p)).len() implies (#[trigger] comps(normalize(p))[i]) != cur_comp()
        && comps(normalize(p))[i] != parent_comp() by {
        if i < lead.len() {
            assert(comps(normalize(p))[i] == root_comp());
        } else {
            assert(comps(normalize(p))[i] == st[i - lead.len()]);
            assert(is_plain_name(st[i - lead.len()]));
        }
    }
}


proof fn lemma_pieces_concat_names(a: Seq<char>, names: Seq<Seq<char>>)
    requires
        names.len() > 0,
        forall|i: int| 0 <= i < names.len() ==> !(#[trigger] names[i]).contains('/'),
    ensures
        pieces(a + slash() + join_with(names, slash())) == pieces(a) + names,
    decreases names.len(),
{
    if names.len() == 1 {
        lemma_pieces_append_name(a, names[0]);
        assert(pieces(a).push(names[0]) =~= pieces(a) + names);
    } else {
        let dl = names.drop_last();
        assert forall|i: int| 0 <= i < dl.len() implies !(#[trigger] dl[i]).contains('/') by {
            assert(dl[i] == names[i]);
        }
        lemma_pieces_concat_names(a, dl);
        let b = a + slash() + join_with(dl, slash());
        lemma_pieces_append_name(b, names.last());
        assert(b + slash() + names.last() =~= a + slash() + join_with(names, slash()));
        assert((pieces(a) + dl).push(names.last()) =~= pieces(a) + names);
    }
}

proof fn lemma_kept_concat_names(ps: Seq<Seq<char>>, names: Seq<Seq<char>>)
    requires
        all_plain(names),
    ensures
        kept_pieces(ps + names) == kept_pieces(ps) + names,
    decreases names.len(),
{
    if names.len() == 0 {
        assert(ps + names =~= ps);
        assert(kept_pieces(ps) + names =~= kept_pieces(ps));
    } else {
        let dl = names.drop_last();
        assert(all_plain(dl)) by {
            assert forall|i: int| 0 <= i < dl.len() implies is_plain_name(#[trigger] dl[i]) by {
                assert(dl[i] == names[i]);
            }
        }
        lemma_kept_concat_names(ps, dl);
        assert((ps + names).drop_last() =~= ps + dl);
        assert((ps + names).last() == names.last());
        assert(is_plain_name(names[names.len() - 1]));
        assert((kept_pieces(ps) + dl).push(names.last()) =~= kept_pieces(ps) + names);
    }
}

proof fn lemma_lead_extend(a: Seq<char>, t: Seq<char>)
    requires
        a.len() > 0,
    ensures
        lead_comps(a + slash() + t) == lead_comps(a),
{
    let p = a + slash() + t;
    assert(p[0] == a[0]);
    if a.len() == 1 {
        assert(p[1] == '/');
    } else {
        assert(p[1] == a[1]);
    }
}

/// Joining plain names onto a path adds them to its components.
pub proof fn lemma_comps_path_join(a: Seq<char>, names: Seq<Seq<char>>)
    requires
        names.len() > 0,
        all_plain(names),
    ensures
        comps(path_join(a, join_with(names, slash()))) == comps(a) + names,
{
    let j = join_with(names, slash());
    assert forall|i: int| 0 <= i < names.len() implies !(#[trigger] names[i]).contains('/') by {
        assert(is_plain_name(names[i]));
    }
    lemma_comps_join(names);
    lemma_join_starts_with_first(names);
    assert(is_plain_name(names[0]));
    assert(!is_abs(j)) by {
        if j.len() > 0 && j[0] == '/' {
            assert(names[0][0] == '/');
            assert(names[0].contains('/'));
        }
    }
    if a.len() == 0 {
        assert(path_join(a, j) =~= j);
        assert(comps(a) =~= Seq::<Seq<char>>::empty()) by {
            assert(pieces(a) == seq![Seq::<char>::empty()]);
            assert(seq![Seq::<char>::empty()].drop_last() =~= Seq::<Seq<char>>::empty());
            assert(kept_pieces(Seq::<Seq<char>>::empty()) == Seq::<Seq<char>>::empty());
        }
        assert(comps(a) + names =~= names);
    } else if a.last() == '/' {
        let a1 = a.drop_last();
        assert(path_join(a, j) =~= a1 + slash() + j);
        if a1.len() == 0 {
            assert(a =~= slash());
            lemma_comps_root_join(names);
            assert(comps(a) =~= seq![root_comp()]) by {
                lemma_comps_root_join(Seq::empty());
                assert(join_with(Seq::<Seq<char>>::empty(), slash()) == Seq::<char>::empty());
                assert(slash() + Seq::<char>::empty() =~= a);
            }
            assert(Seq::<char>::empty() + slash() + j =~= slash() + j);
        } else {
            lemma_pieces_concat_names(a1, names);
            lemma_kept_concat_names(pieces(a1), names);
            lemma_lead_extend(a1, j);
            // `a` is `a1` with a trailing `/`: the same components
            assert(a1 + slash() =~= a);
            assert(a.drop_last() =~= a1);
            assert(pieces(a) == pieces(a1).push(Seq::<char>::empty()));
            assert(kept_pieces(pieces(a)) == kept_pieces(pieces(a1))) by {
                let ps = pieces(a);
                assert(ps.drop_last() =~= pieces(a1));
                assert(ps.last() == Seq::<char>::empty());
                assert(!is_kept_piece(Seq::<char>::empty()));
            }
            lemma_lead_extend(a1, Seq::empty());
            assert(a1 + slash() + Seq::<char>::empty() =~= a);
            assert(comps(a) == comps(a1));
            assert(comps(a1 + slash() + j) =~= comps(a1) + names);
        }
    } else {
        assert(path_join(a, j) == a + slash() + j);
        lemma_pieces_concat_names(a, names);
        lemma_kept_concat_names(pieces(a), names);
        lemma_lead_extend(a, j);
        assert(comps(a + slash() + j) =~= comps(a) + names);
    }
}

/// The first piece of a path that does not begin with `/` begins with its first
/// character, and holds its second too when that is not `/`.
proof fn lemma_first_piece(p: Seq<char>)
    requires
        p.len() > 0,
        p[0] != '/',
    ensures
        pieces(p)[0].len() >= 1,
        pieces(p)[0][0] == p[0],
        p.len() >= 2 && p[1] != '/' ==> pieces(p)[0].len() >= 2,
    decreases p.len(),
{
    let d = p.drop_last();
    let r = pieces(d);
    lemma_pieces_nonempty(d);
    if p.len() == 1 {
        assert(d.len() == 0);
        assert(r == seq![Seq::<char>::empty()]);
        assert(p.last() == p[0]);
        assert(pieces(p) == r.update(0, Seq::<char>::empty().push(p[0])));
    } else {
        lemma_first_piece(d);
        assert(d[0] == p[0]);
        if p.len() >= 3 {
            assert(d[1] == p[1]);
        } else if p[1] != '/' {
            assert(d.len() == 1);
            assert(r.len() == 1) by {
                assert(pieces(d.drop_last()) == seq![Seq::<char>::empty()]);
            }
            assert(p.last() == p[1]);
        }
        if p.last() == '/' {
            assert(pieces(p) == r.push(Seq::<char>::empty()));
            assert(pieces(p)[0] == r[0]);
        } else {
            let q = r.update(r.len() - 1, r.last().push(p.last()));
            assert(pieces(p) == q);
            if r.len() == 1 {
                assert(q[0] == r[0].push(p.last()));
            } else {
                assert(q[0] == r[0]);
            }
        }
    }
}

/// A list of pieces with a kept piece in it keeps something.
proof fn lemma_kept_nonempty(ps: Seq<Seq<char>>, i: int)
    requires
        0 <= i < ps.len(),
        is_kept_piece(ps[i]),
    ensures
        kept_pieces(ps).len() > 0,
    decreases ps.len(),
{
    if i < ps.len() - 1 {
        lemma_kept_nonempty(ps.drop_last(), i);
    } else {
        assert(ps.last() == ps[i]);
    }
}

/// A path that is not empty has a component.
pub proof fn lemma_comps_nonempty(p: Seq<char>)
    requires
        p.len() > 0,
    ensures
        comps(p).len() > 0,
{
    if !is_abs(p) && !starts_cur_dir(p) {
        lemma_first_piece(p);
        lemma_pieces_nonempty(p);
        let x = pieces(p)[0];
        assert(is_kept_piece(x)) by {
            if x == cur_comp() {
                assert(x.len() == 1);
                assert(p[0] == '.');
                if p.len() >= 2 && p[1] != '/' {
                    assert(x.len() >= 2);
                }
            }
        }
        lemma_kept_nonempty(pieces(p), 0);
    }
}

} // verus!
