//! Restricting `apply` to part of the dotfiles repo.
use vstd::prelude::*;
use crate::text::{to_chars, from_chars};
use crate::paths::{is_abs, path_join, path_starts_with, join_path, path_starts_with_exec, comps};
use crate::dotsymize::lemma_push_contains;
use crate::order::views_of;
use crate::context::{DotsymContext, config_dir_spec, expand_home_prefix, expand_home_prefix_spec};
use crate::mappings::SymlinkMapping;
use crate::error::DotsymError;

verus! {

/// The path a filter names before it is resolved on disk: a leading `~/`
/// expanded, and a relative filter taken inside the dotfiles directory.
pub open spec fn filter_base_spec(ctx: DotsymContext, filter: Seq<char>) -> Seq<char> {
    let expanded = expand_home_prefix_spec(filter, ctx.home_dir@);
    if is_abs(expanded) {
        expanded
    } else {
        path_join(config_dir_spec(ctx.config.dir@, ctx.home_dir@), expanded)
    }
}

/// The path compared for the `i`-th mapping: its resolved destination when one was
/// given, else its destination.
pub open spec fn compared_dest(ms: Seq<(Seq<char>, Seq<char>)>, resolved: Seq<Seq<char>>, i: int) -> Seq<char> {
    if i < resolved.len() { resolved[i] } else { ms[i].1 }
}

/// The mappings whose (resolved) destination lies under `filter`, in order.
pub open spec fn filter_spec(ms: Seq<(Seq<char>, Seq<char>)>, filter: Seq<char>, resolved: Seq<Seq<char>>) -> Seq<
    (Seq<char>, Seq<char>),
>
    decreases ms.len(),
{
    if ms.len() == 0 {
        Seq::empty()
    } else {
        let r = filter_spec(ms.drop_last(), filter, resolved);
        if path_starts_with(compared_dest(ms, resolved, ms.len() - 1), filter) {
            r.push(ms.last())
        } else {
            r
        }
    }
}

proof fn lemma_filter_prefix(ms: Seq<(Seq<char>, Seq<char>)>, filter: Seq<char>, resolved: Seq<Seq<char>>, k: int)
    requires
        0 <= k <= ms.len(),
    ensures
        forall|i: int| 0 <= i < k ==> compared_dest(ms.take(k), resolved, i) == compared_dest(ms, resolved, i),
{
    assert forall|i: int| 0 <= i < k implies compared_dest(ms.take(k), resolved, i) == compared_dest(ms, resolved, i) by {
        assert(ms.take(k)[i] == ms[i]);
    }
}

impl DotsymContext {
    /// The path a filter names before it is resolved on disk.
    pub fn filter_base(&self, filter: &str) -> (r: String)
        ensures
            r@ == filter_base_spec(*self, filter@),
    {
        let e = expand_home_prefix(filter, self.home_dir.as_str());
        let expanded = to_chars(e.as_str());
        if expanded.len() > 0 && expanded[0] == '/' {
            from_chars(&expanded)
        } else {
            let cd = self.config_dir();
            let cdv = to_chars(cd.as_str());
            let j = join_path(&cdv, &expanded);
            from_chars(&j)
        }
    }

    /// Keeps the mappings whose destination lies under the filter. `resolved_filter`
    /// is the filter's path as resolved on disk (`None`: no filter, all are kept);
    /// `resolved_destinations[i]` is the `i`-th destination as resolved on disk
    /// (a mapping without one is compared by its destination).
    pub fn filter_mappings(
        &self,
        mappings: Vec<SymlinkMapping>,
        resolved_filter: Option<String>,
        resolved_destinations: &Vec<String>,
    ) -> (r: Result<Vec<SymlinkMapping>, DotsymError>)
        ensures
            r matches Ok(v) && match resolved_filter {
                None => views_of(v@) == views_of(mappings@),
                Some(f) => views_of(v@) == filter_spec(views_of(mappings@), f@, views_of(resolved_destinations@)),
            },
    {
        let f = match resolved_filter {
            None => {
                return Ok(mappings);
            },
            Some(f) => f,
        };
        let fv = to_chars(f.as_str());
        let ghost ms = views_of(mappings@);
        let ghost res = views_of(resolved_destinations@);
        let mut out: Vec<SymlinkMapping> = Vec::new();
        let n = mappings.len();
        assert(ms.take(0) =~= Seq::<(Seq<char>, Seq<char>)>::empty());
        for i in 0..n
            invariant
                n == mappings@.len(),
                ms == views_of(mappings@),
                res == views_of(resolved_destinations@),
                fv@ == f@,
                views_of(out@) == filter_spec(ms.take(i as int), f@, res),
        {
            let ghost pre = ms.take(i as int);
            let ghost nxt = ms.take(i + 1);
            assert(nxt.drop_last() =~= pre);
            assert(nxt.last() == ms[i as int]);
            proof {
                lemma_filter_prefix(ms, f@, res, i + 1);
            }
            let d = if i < resolved_destinations.len() {
                to_chars(resolved_destinations[i].as_str())
            } else {
                to_chars(mappings[i].destination.as_str())
            };
            assert(d@ == compared_dest(ms, res, i as int));
            if path_starts_with_exec(&d, &fv) {
                let ghost before = views_of(out@);
                out.push(mappings[i].clone_mapping());
                assert(views_of(out@) =~= before.push(ms[i as int]));
            }
        }
        assert(ms.take(n as int) =~= ms);
        Ok(out)
    }
}

/// The components of `base` begin those of `p` (`p` is `base` or lies below it).
pub open spec fn at_or_below(p: Seq<char>, base: Seq<char>) -> bool {
    comps(base).len() <= comps(p).len() && comps(p).take(comps(base).len() as int) == comps(base)
}

/// `x` is a mapping of `ms` kept because its compared destination is at or below
/// `filter`.
pub open spec fn kept_under(x: (Seq<char>, Seq<char>), ms: Seq<(Seq<char>, Seq<char>)>, filter: Seq<char>, resolved: Seq<
    Seq<char>,
>) -> bool {
    exists|i: int|
        0 <= i < ms.len() && #[trigger] ms[i] == x && at_or_below(
            if i < resolved.len() { resolved[i] } else { ms[i].1 },
            filter,
        )
}

/// A filter keeps a mapping exactly when its destination (as resolved on disk,
/// when that is known) is the filter's path or lies below it, component by
/// component: a filter naming a host directory, a literal directory, or one entry
/// keeps what lies there, the entry itself included; and nothing else is kept.
pub proof fn lemma_filter_keeps_under(
    ms: Seq<(Seq<char>, Seq<char>)>,
    filter: Seq<char>,
    resolved: Seq<Seq<char>>,
)
    ensures
        forall|i: int|
            0 <= i < ms.len() && at_or_below(if i < resolved.len() { resolved[i] } else { ms[i].1 }, filter)
                ==> filter_spec(ms, filter, resolved).contains(#[trigger] ms[i]),
        forall|i: int|
            0 <= i < ms.len() && comps(if i < resolved.len() { resolved[i] } else { ms[i].1 }) == comps(filter)
                ==> filter_spec(ms, filter, resolved).contains(#[trigger] ms[i]),
        forall|k: int|
            0 <= k < filter_spec(ms, filter, resolved).len() ==> kept_under(
                #[trigger] filter_spec(ms, filter, resolved)[k],
                ms,
                filter,
                resolved,
            ),
    decreases ms.len(),
{
    let out = filter_spec(ms, filter, resolved);
    if ms.len() > 0 {
        let n = ms.len() - 1;
        let dl = ms.drop_last();
        lemma_filter_keeps_under(dl, filter, resolved);
        lemma_filter_prefix(ms, filter, resolved, n);
        assert(ms.take(n) == dl);
        let r = filter_spec(dl, filter, resolved);
        let last_in = path_starts_with(compared_dest(ms, resolved, n), filter);
        assert(out == if last_in { r.push(ms.last()) } else { r });
        assert forall|i: int|
            0 <= i < ms.len() && at_or_below(if i < resolved.len() { resolved[i] } else { ms[i].1 }, filter)
            implies out.contains(#[trigger] ms[i]) by {
            if i < n {
                assert(dl[i] == ms[i]);
                assert(compared_dest(dl, resolved, i) == compared_dest(ms, resolved, i));
                assert(r.contains(dl[i]));
                if last_in {
                    lemma_push_contains(r, ms.last(), ms[i]);
                }
            } else {
                assert(last_in);
                assert(out[r.len() as int] == ms[i]);
            }
        }
        assert forall|i: int|
            0 <= i < ms.len() && comps(if i < resolved.len() { resolved[i] } else { ms[i].1 }) == comps(filter)
            implies out.contains(#[trigger] ms[i]) by {
            let d = if i < resolved.len() { resolved[i] } else { ms[i].1 };
            assert(comps(d).take(comps(filter).len() as int) =~= comps(filter));
            assert(at_or_below(d, filter));
        }
        assert forall|k: int| 0 <= k < out.len() implies kept_under(#[trigger] out[k], ms, filter, resolved) by {
            if k < r.len() {
                assert(out[k] == r[k]);
                assert(kept_under(r[k], dl, filter, resolved));
                let i = choose|i: int|
                    0 <= i < dl.len() && #[trigger] dl[i] == r[k] && at_or_below(
                        if i < resolved.len() { resolved[i] } else { dl[i].1 },
                        filter,
                    );
                assert(ms[i] == dl[i]);
            } else {
                assert(out[k] == ms[n]);
            }
        }
    }
}

} // verus!
