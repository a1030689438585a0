//! What bringing a file under management promises: once the file sits at a
//! candidate's place in the repo, the mapping it gives links back to where the
//! file was.
use vstd::prelude::*;
use crate::paths::{comps, join_with, path_join, slash, same_path, seq_prefix, is_abs, normalize, root_comp,
    cur_comp};
use crate::path_laws::{is_plain_name, all_plain, lemma_comps_join, lemma_comps_path_join, lemma_normalize_comps,
    lemma_join_starts_with_first, lemma_comps_nonempty};
use crate::context::{DotsymContext, collapse_spec, expand_spec, config_dir_spec, disjoint_chars,
    lemma_expand_collapse_roundtrip};
use crate::mappings::{target_dir_spec, entry_mappings};
use crate::dotsymize::{CandidateView, candidate_spec, candidates_upto, candidates_spec, split_candidates};

verus! {

/// A join of names none of whose characters occurs in `sep` (which holds no `/`)
/// has no character in `sep` either.
proof fn lemma_join_disjoint(names: Seq<Seq<char>>, sep: Seq<char>)
    requires
        disjoint_chars(slash(), sep),
        forall|i: int| 0 <= i < names.len() ==> disjoint_chars(#[trigger] names[i], sep),
    ensures
        disjoint_chars(join_with(names, slash()), sep),
    decreases names.len(),
{
    if names.len() == 1 {
        assert(disjoint_chars(names[0], sep));
    } else if names.len() > 1 {
        let dl = names.drop_last();
        assert forall|i: int| 0 <= i < dl.len() implies disjoint_chars(#[trigger] dl[i], sep) by {
            assert(dl[i] == names[i]);
        }
        lemma_join_disjoint(dl, sep);
        let a = join_with(dl, slash());
        let l = names.last();
        assert(disjoint_chars(l, sep)) by {
            assert(names[names.len() - 1] == l);
        }
        let j = a + slash() + l;
        assert(join_with(names, slash()) == j);
        assert forall|x: int, y: int| 0 <= x < j.len() && 0 <= y < sep.len() implies j[x] != sep[y] by {
            if x < a.len() {
                assert(j[x] == a[x]);
            } else if x == a.len() {
                assert(j[x] == slash()[0]);
            } else {
                assert(j[x] == l[x - a.len() - 1]);
            }
        }
    }
}

/// A join of one or more plain names is a relative path other than `.`.
proof fn lemma_join_plain_shape(names: Seq<Seq<char>>)
    requires
        names.len() > 0,
        all_plain(names),
    ensures
        !is_abs(join_with(names, slash())),
        join_with(names, slash()) != seq!['.'],
        join_with(names, slash()).len() > 0,
{
    let j = join_with(names, slash());
    lemma_join_starts_with_first(names);
    let n0 = names[0];
    assert(is_plain_name(n0));
    assert(j[0] == n0[0]);
    if is_abs(j) {
        assert(n0.contains('/')) by {
            assert(n0[0] == '/');
        }
    }
    if j == seq!['.'] {
        assert(n0.len() == 1);
        assert(n0 =~= cur_comp());
    }
}

/// The link path of a file moved to the split after `k` of the components `rel`
/// below home: the literal directory's place under home, joined with the expanded
/// destination name, has the components of home followed by `rel`.
proof fn lemma_split_links_back(home: Seq<char>, sep: Seq<char>, rel: Seq<Seq<char>>, k: int)
    requires
        sep.len() > 0,
        disjoint_chars(slash(), sep),
        all_plain(rel),
        forall|i: int| 0 <= i < rel.len() ==> disjoint_chars(#[trigger] rel[i], sep),
        0 <= k < rel.len(),
    ensures
        comps(path_join(
            target_dir_spec(home, collapse_spec(join_with(rel.take(k), slash()), sep), sep),
            expand_spec(collapse_spec(join_with(rel.skip(k), slash()), sep), sep),
        )) == comps(home) + rel,
{
    let front = rel.take(k);
    let back = rel.skip(k);
    assert(all_plain(back)) by {
        assert forall|i: int| 0 <= i < back.len() implies is_plain_name(#[trigger] back[i]) by {
            assert(back[i] == rel[i + k]);
        }
    }
    assert forall|i: int| 0 <= i < back.len() implies disjoint_chars(#[trigger] back[i], sep) by {
        assert(back[i] == rel[i + k]);
    }
    lemma_join_plain_shape(back);
    lemma_join_disjoint(back, sep);
    let jb = join_with(back, slash());
    lemma_expand_collapse_roundtrip(jb, sep);
    let lit = collapse_spec(join_with(front, slash()), sep);
    if k == 0 {
        assert(front =~= Seq::<Seq<char>>::empty());
        assert(join_with(front, slash()) == Seq::<char>::empty());
        assert(lit == sep);
        assert(expand_spec(sep, sep) == Seq::<char>::empty());
        assert(target_dir_spec(home, lit, sep) == home);
        assert(back =~= rel);
        lemma_comps_path_join(home, rel);
    } else {
        assert(all_plain(front)) by {
            assert forall|i: int| 0 <= i < front.len() implies is_plain_name(#[trigger] front[i]) by {
                assert(front[i] == rel[i]);
            }
        }
        assert forall|i: int| 0 <= i < front.len() implies disjoint_chars(#[trigger] front[i], sep) by {
            assert(front[i] == rel[i]);
        }
        lemma_join_plain_shape(front);
        lemma_join_disjoint(front, sep);
        let jf = join_with(front, slash());
        lemma_expand_collapse_roundtrip(jf, sep);
        assert(expand_spec(lit, sep) == jf);
        let td = path_join(home, jf);
        assert(target_dir_spec(home, lit, sep) == td);
        lemma_comps_path_join(home, front);
        lemma_comps_path_join(td, back);
        assert(comps(home) + front + back =~= comps(home) + rel);
    }
}

/// Every candidate of `candidates_upto` is the candidate of one split `k` below
/// `n` in one of the host directories.
proof fn lemma_candidates_upto_member(
    sep: Seq<char>,
    config_dir: Seq<char>,
    rel: Seq<Seq<char>>,
    n: int,
    hs: Seq<(Seq<char>, bool)>,
    existing: Seq<Seq<char>>,
    i: int,
)
    requires
        0 <= i < candidates_upto(sep, config_dir, rel, n, hs, existing).len(),
    ensures
        exists|k: int, j: int|
            0 <= k < n && 0 <= j < hs.len() && candidates_upto(sep, config_dir, rel, n, hs, existing)[i]
                == #[trigger] candidate_spec(sep, config_dir, rel, k, hs[j], existing),
    decreases n,
{
    if n > 0 {
        let a = candidates_upto(sep, config_dir, rel, n - 1, hs, existing);
        let b = split_candidates(sep, config_dir, rel, n - 1, hs, existing);
        assert(candidates_upto(sep, config_dir, rel, n, hs, existing) == a + b);
        if i < a.len() {
            lemma_candidates_upto_member(sep, config_dir, rel, n - 1, hs, existing, i);
            let (k, j) = choose|k: int, j: int|
                0 <= k < n - 1 && 0 <= j < hs.len() && a[i] == #[trigger] candidate_spec(
                    sep,
                    config_dir,
                    rel,
                    k,
                    hs[j],
                    existing,
                );
            assert((a + b)[i] == a[i]);
            assert(candidates_upto(sep, config_dir, rel, n, hs, existing)[i] == candidate_spec(
                sep,
                config_dir,
                rel,
                k,
                hs[j],
                existing,
            ));
        } else {
            let j = i - a.len();
            assert((a + b)[i] == b[j]);
            assert(b[j] == candidate_spec(sep, config_dir, rel, n - 1, hs[j], existing));
        }
    }
}

/// Bringing a file under management links it back: every place offered for a
/// target (an absolute, normalized path strictly under home) is one
/// where, once the file sits there in the repo, the mapping that the file gives
/// as an entry of its literal directory has the target as its link (the same path)
/// and the candidate's place in the repo as what it points to. This holds when the
/// separator is not empty, holds no `/`, and shares no character with the names
/// of the target below home, and when home is not the empty string.
pub proof fn lemma_candidates_link_back(
    ctx: DotsymContext,
    target: Seq<char>,
    hs: Seq<(Seq<char>, bool)>,
    existing: Seq<Seq<char>>,
    i: int,
)
    requires
        ctx.config.separator@.len() > 0,
        disjoint_chars(slash(), ctx.config.separator@),
        ctx.home_dir@.len() > 0,
        is_abs(target),
        normalize(target) == target,
        forall|m: int|
            comps(ctx.home_dir@).len() <= m < comps(target).len() ==> disjoint_chars(
                #[trigger] comps(target)[m],
                ctx.config.separator@,
            ),
        candidates_spec(ctx, target, hs, existing) is Ok,
        0 <= i < candidates_spec(ctx, target, hs, existing)->Ok_0.len(),
    ensures
        ({
            let c = candidates_spec(ctx, target, hs, existing)->Ok_0[i];
            let sep = ctx.config.separator@;
            let m = entry_mappings(
                target_dir_spec(ctx.home_dir@, c.literal_dir, sep),
                c.literal_dir_path,
                seq![c.dest_name],
                sep,
            )[0];
            &&& c.literal_dir_path == path_join(
                path_join(config_dir_spec(ctx.config.dir@, ctx.home_dir@), c.host_dir),
                c.literal_dir,
            )
            &&& same_path(m.0, target)
            &&& m.1 == c.repo_dest
        }),
{
    let sep = ctx.config.separator@;
    let home = ctx.home_dir@;
    let hc = comps(home);
    let tc = comps(target);
    let rel = tc.skip(hc.len() as int);
    let cd = config_dir_spec(ctx.config.dir@, home);
    assert(seq_prefix(hc, tc) && tc.len() != hc.len());
    let cs = candidates_upto(sep, cd, rel, rel.len() as int, hs, existing);
    assert(candidates_spec(ctx, target, hs, existing)->Ok_0 == cs);
    lemma_candidates_upto_member(sep, cd, rel, rel.len() as int, hs, existing, i);
    let (k, j) = choose|k: int, j: int|
        0 <= k < rel.len() && 0 <= j < hs.len() && cs[i] == #[trigger] candidate_spec(
            sep,
            cd,
            rel,
            k,
            hs[j],
            existing,
        );
    // the names below home are plain: the target is normalized, and home, not
    // empty, has a component, which can only be the root
    lemma_normalize_comps(target);
    lemma_comps_nonempty(home);
    assert(hc.len() >= 1);
    let st = crate::paths::norm_stack(tc);
    assert(tc == seq![root_comp()] + st);
    assert(all_plain(rel)) by {
        assert forall|x: int| 0 <= x < rel.len() implies is_plain_name(#[trigger] rel[x]) by {
            assert(rel[x] == tc[x + hc.len()]);
            assert(tc[x + hc.len()] == st[x + hc.len() - 1]);
        }
    }
    assert forall|x: int| 0 <= x < rel.len() implies disjoint_chars(#[trigger] rel[x], sep) by {
        assert(rel[x] == tc[x + hc.len()]);
    }
    lemma_split_links_back(home, sep, rel, k);
    assert(tc =~= hc + rel) by {
        assert(tc.take(hc.len() as int) == hc);
    }
}

} // verus!
