//! Orders used when the library sorts: strings by character code (the order of
//! `str`/`String`), and a stable-free insertion sort over any type with such an order.
use vstd::prelude::*;

verus! {

/// Lexicographic order of character sequences by code point (the order of `str`).
pub open spec fn chars_le(a: Seq<char>, b: Seq<char>) -> bool
    decreases a.len(),
{
    if a.len() == 0 {
        true
    } else if b.len() == 0 {
        false
    } else if a[0] != b[0] {
        (a[0] as int) < (b[0] as int)
    } else {
        chars_le(a.skip(1), b.skip(1))
    }
}

pub proof fn lemma_chars_le_total(a: Seq<char>, b: Seq<char>)
    ensures
        chars_le(a, b) || chars_le(b, a),
    decreases a.len(),
{
    if a.len() > 0 && b.len() > 0 && a[0] == b[0] {
        lemma_chars_le_total(a.skip(1), b.skip(1));
    }
}

pub proof fn lemma_chars_le_trans(a: Seq<char>, b: Seq<char>, c: Seq<char>)
    requires
        chars_le(a, b),
        chars_le(b, c),
    ensures
        chars_le(a, c),
    decreases a.len(),
{
    if a.len() > 0 && b.len() > 0 && c.len() > 0 && a[0] == b[0] && b[0] == c[0] {
        lemma_chars_le_trans(a.skip(1), b.skip(1), c.skip(1));
    }
}

pub proof fn lemma_chars_le_antisym(a: Seq<char>, b: Seq<char>)
    requires
        chars_le(a, b),
        chars_le(b, a),
    ensures
        a == b,
    decreases a.len(),
{
    if a.len() > 0 && b.len() > 0 {
        lemma_chars_le_antisym(a.skip(1), b.skip(1));
        assert(a =~= seq![a[0]] + a.skip(1));
        assert(b =~= seq![b[0]] + b.skip(1));
    }
}

/// `a <= b` in the order of `str`.
pub fn chars_le_exec(a: &Vec<char>, b: &Vec<char>) -> (r: bool)
    ensures
        r == chars_le(a@, b@),
{
    let mut i: usize = 0;
    assert(a@.skip(0) == a@);
    assert(b@.skip(0) == b@);
    while i < a.len() && i < b.len() && a[i] == b[i]
        invariant
            i <= a@.len(),
            i <= b@.len(),
            a@.take(i as int) == b@.take(i as int),
            chars_le(a@, b@) == chars_le(a@.skip(i as int), b@.skip(i as int)),
        decreases a@.len() - i,
    {
        assert(a@.skip(i as int).skip(1) == a@.skip(i + 1));
        assert(b@.skip(i as int).skip(1) == b@.skip(i + 1));
        assert(a@.take(i + 1) == a@.take(i as int).push(a@[i as int]));
        assert(b@.take(i + 1) == b@.take(i as int).push(b@[i as int]));
        i = i + 1;
    }
    if i == a.len() {
        true
    } else if i == b.len() {
        false
    } else {
        let x = a[i];
        let y = b[i];
        assert(a@.skip(i as int)[0] == x);
        assert(b@.skip(i as int)[0] == y);
        x < y
    }
}

/// The views of a sequence of values.
pub open spec fn views_of<T: View>(s: Seq<T>) -> Seq<T::V> {
    s.map_values(|x: T| x@)
}

/// A total preorder on the views of a type, by which its values are sorted.
pub trait SortKey: View + Sized {
    spec fn vle(a: Self::V, b: Self::V) -> bool;

    proof fn lemma_total(a: Self::V, b: Self::V)
        ensures
            Self::vle(a, b) || Self::vle(b, a),
    ;

    proof fn lemma_trans(a: Self::V, b: Self::V, c: Self::V)
        requires
            Self::vle(a, b),
            Self::vle(b, c),
        ensures
            Self::vle(a, c),
    ;

    fn le(&self, other: &Self) -> (r: bool)
        ensures
            r == Self::vle(self@, other@),
    ;
}

/// A sort key under which no two different views are equivalent.
pub trait StrictSortKey: SortKey {
    proof fn lemma_antisym(a: Self::V, b: Self::V)
        requires
            Self::vle(a, b),
            Self::vle(b, a),
        ensures
            a == b,
    ;
}

/// Every element is at most each later one.
pub open spec fn sorted_views<T: SortKey>(s: Seq<T::V>) -> bool {
    forall|i: int, j: int| 0 <= i < j < s.len() ==> T::vle(#[trigger] s[i], #[trigger] s[j])
}

/// The one ordering of the elements of `s` that is sorted (for a strict key).
pub open spec fn sort_spec<T: StrictSortKey>(s: Seq<T::V>) -> Seq<T::V> {
    choose|r: Seq<T::V>| r.to_multiset() == s.to_multiset() && sorted_views::<T>(r)
}

/// Two sorted orderings of the same elements are equal, for a strict key.
pub proof fn lemma_sorted_unique<T: StrictSortKey>(a: Seq<T::V>, b: Seq<T::V>)
    requires
        sorted_views::<T>(a),
        sorted_views::<T>(b),
        a.to_multiset() == b.to_multiset(),
    ensures
        a == b,
    decreases a.len(),
{
    broadcast use vstd::multiset::group_multiset_axioms;
    vstd::seq_lib::to_multiset_len(a);
    vstd::seq_lib::to_multiset_len(b);
    if a.len() > 0 {
        vstd::seq_lib::to_multiset_contains(a, a[0]);
        vstd::seq_lib::to_multiset_contains(b, a[0]);
        vstd::seq_lib::to_multiset_contains(a, b[0]);
        vstd::seq_lib::to_multiset_contains(b, b[0]);
        assert(a.contains(a[0]));
        assert(b.contains(b[0]));
        let k = choose|k: int| 0 <= k < b.len() && b[k] == a[0];
        let l = choose|l: int| 0 <= l < a.len() && a[l] == b[0];
        if k > 0 {
            assert(T::vle(b[0], b[k]));
        } else {
            T::lemma_total(b[0], a[0]);
        }
        if l > 0 {
            assert(T::vle(a[0], a[l]));
        } else {
            T::lemma_total(a[0], b[0]);
        }
        T::lemma_antisym(a[0], b[0]);
        vstd::seq_lib::to_multiset_remove(a, 0);
        vstd::seq_lib::to_multiset_remove(b, 0);
        assert(a.remove(0) =~= a.drop_first());
        assert(b.remove(0) =~= b.drop_first());
        lemma_sorted_unique::<T>(a.drop_first(), b.drop_first());
        assert(a =~= seq![a[0]] + a.drop_first());
        assert(b =~= seq![b[0]] + b.drop_first());
    }
}

/// Sorts by insertion; the result holds the same elements, in key order.
pub fn sort_by_key<T: SortKey>(v: Vec<T>) -> (r: Vec<T>)
    ensures
        views_of(r@).to_multiset() == views_of(v@).to_multiset(),
        sorted_views::<T>(views_of(r@)),
{
    broadcast use vstd::multiset::group_multiset_axioms;
    let mut out: Vec<T> = Vec::new();
    let mut rest = v;
    let ghost orig = views_of(rest@);
    proof {
        assert(views_of(out@) =~= Seq::<T::V>::empty());
        vstd::seq_lib::to_multiset_len(views_of(out@));
        vstd::multiset::lemma_multiset_empty_len(views_of(out@).to_multiset());
    }
    // Move elements from the back of `rest` into `out`, keeping `out` sorted.
    while rest.len() > 0
        invariant
            sorted_views::<T>(views_of(out@)),
            views_of(out@).to_multiset().add(views_of(rest@).to_multiset()) == orig.to_multiset(),
        decreases rest@.len(),
    {
        let ghost rest_before = rest@;
        let x = rest.pop().unwrap();
        proof {
            assert(views_of(rest_before) =~= views_of(rest@).push(x@));
            vstd::seq_lib::to_multiset_build(views_of(rest@), x@);
        }
        // find the first position whose element is strictly greater than x
        let mut j: usize = 0;
        while j < out.len() && out[j].le(&x)
            invariant
                j <= out@.len(),
                forall|k: int| 0 <= k < j ==> T::vle((#[trigger] out@[k])@, x@),
            decreases out@.len() - j,
        {
            j = j + 1;
        }
        let ghost out_before = views_of(out@);
        proof {
            if j < out@.len() {
                T::lemma_total(out_before[j as int], x@);
            }
        }
        out.insert(j, x);
        proof {
            let ov = views_of(out@);
            assert(ov =~= out_before.insert(j as int, x@));
            vstd::seq_lib::to_multiset_insert(out_before, j as int, x@);
            assert forall|a: int, b: int| 0 <= a < b < ov.len() implies T::vle(#[trigger] ov[a], #[trigger] ov[b]) by {
                if a < j && b == j {
                    assert(ov[a] == out_before[a]);
                } else if a < j && b > j {
                    assert(ov[a] == out_before[a]);
                    assert(ov[b] == out_before[b - 1]);
                } else if a == j && b > j {
                    assert(ov[b] == out_before[b - 1]);
                    if b - 1 > j {
                        T::lemma_trans(x@, out_before[j as int], out_before[b - 1]);
                    }
                } else if a > j {
                    assert(ov[a] == out_before[a - 1]);
                    assert(ov[b] == out_before[b - 1]);
                } else {
                    assert(ov[a] == out_before[a]);
                    assert(ov[b] == out_before[b]);
                }
            }
        }
    }
    proof {
        assert(views_of(rest@) =~= Seq::<T::V>::empty());
        vstd::seq_lib::to_multiset_len(views_of(rest@));
        vstd::multiset::lemma_multiset_empty_len(views_of(rest@).to_multiset());
    }
    out
}

/// Sorts under a strict key: the result is the one sorted ordering of the input.
pub fn sort_strict<T: StrictSortKey>(v: Vec<T>) -> (r: Vec<T>)
    ensures
        views_of(r@) == sort_spec::<T>(views_of(v@)),
        views_of(r@).to_multiset() == views_of(v@).to_multiset(),
{
    let ghost input = views_of(v@);
    let r = sort_by_key(v);
    proof {
        let w = views_of(r@);
        assert(w.to_multiset() == input.to_multiset() && sorted_views::<T>(w));
        let c = sort_spec::<T>(input);
        assert(c.to_multiset() == input.to_multiset() && sorted_views::<T>(c));
        lemma_sorted_unique::<T>(w, c);
    }
    r
}

impl SortKey for String {
    open spec fn vle(a: Seq<char>, b: Seq<char>) -> bool {
        chars_le(a, b)
    }

    proof fn lemma_total(a: Seq<char>, b: Seq<char>) {
        lemma_chars_le_total(a, b);
    }

    proof fn lemma_trans(a: Seq<char>, b: Seq<char>, c: Seq<char>) {
        lemma_chars_le_trans(a, b, c);
    }

    fn le(&self, other: &String) -> (r: bool) {
        let a = crate::text::to_chars(self.as_str());
        let b = crate::text::to_chars(other.as_str());
        chars_le_exec(&a, &b)
    }
}

impl StrictSortKey for String {
    proof fn lemma_antisym(a: Seq<char>, b: Seq<char>) {
        lemma_chars_le_antisym(a, b);
    }
}


/// An element of a reordering is an element of the original.
pub proof fn lemma_same_multiset_member<V>(a: Seq<V>, b: Seq<V>, i: int)
    requires
        a.to_multiset() == b.to_multiset(),
        0 <= i < a.len(),
    ensures
        b.contains(a[i]),
{
    vstd::seq_lib::to_multiset_contains(a, a[i]);
    vstd::seq_lib::to_multiset_contains(b, a[i]);
    assert(a.contains(a[i]));
}


/// The kind of a path component, in the order of `std::path::Component`: the
/// root, then `.`, then `..`, then names.
pub open spec fn comp_rank(c: Seq<char>) -> int {
    if c == seq!['/'] {
        0
    } else if c == seq!['.'] {
        1
    } else if c == seq!['.', '.'] {
        2
    } else {
        3
    }
}

/// The order of path components: by kind, names by their characters.
pub open spec fn comp_le(a: Seq<char>, b: Seq<char>) -> bool {
    if comp_rank(a) != comp_rank(b) {
        comp_rank(a) < comp_rank(b)
    } else if comp_rank(a) == 3 {
        chars_le(a, b)
    } else {
        true
    }
}

/// The order of paths (`Path::cmp`): their components compared lexicographically.
pub open spec fn comps_le(a: Seq<Seq<char>>, b: Seq<Seq<char>>) -> bool
    decreases a.len(),
{
    if a.len() == 0 {
        true
    } else if b.len() == 0 {
        false
    } else if a[0] != b[0] {
        comp_le(a[0], b[0])
    } else {
        comps_le(a.skip(1), b.skip(1))
    }
}

proof fn lemma_comp_le_total(a: Seq<char>, b: Seq<char>)
    ensures
        comp_le(a, b) || comp_le(b, a),
{
    lemma_chars_le_total(a, b);
}

proof fn lemma_comp_le_trans(a: Seq<char>, b: Seq<char>, c: Seq<char>)
    requires
        comp_le(a, b),
        comp_le(b, c),
    ensures
        comp_le(a, c),
{
    if comp_rank(a) == 3 && comp_rank(b) == 3 && comp_rank(c) == 3 {
        lemma_chars_le_trans(a, b, c);
    }
}

proof fn lemma_comp_le_antisym(a: Seq<char>, b: Seq<char>)
    requires
        comp_le(a, b),
        comp_le(b, a),
    ensures
        a == b,
{
    if comp_rank(a) == 3 {
        lemma_chars_le_antisym(a, b);
    }
}

pub proof fn lemma_comps_le_refl(a: Seq<Seq<char>>)
    ensures
        comps_le(a, a),
    decreases a.len(),
{
    if a.len() > 0 {
        lemma_comps_le_refl(a.skip(1));
    }
}

pub proof fn lemma_comps_le_total(a: Seq<Seq<char>>, b: Seq<Seq<char>>)
    ensures
        comps_le(a, b) || comps_le(b, a),
    decreases a.len(),
{
    if a.len() > 0 && b.len() > 0 {
        if a[0] == b[0] {
            lemma_comps_le_total(a.skip(1), b.skip(1));
        } else {
            lemma_comp_le_total(a[0], b[0]);
        }
    }
}

pub proof fn lemma_comps_le_trans(a: Seq<Seq<char>>, b: Seq<Seq<char>>, c: Seq<Seq<char>>)
    requires
        comps_le(a, b),
        comps_le(b, c),
    ensures
        comps_le(a, c),
    decreases a.len(),
{
    if a.len() > 0 && b.len() > 0 && c.len() > 0 {
        if a[0] == b[0] && b[0] == c[0] {
            lemma_comps_le_trans(a.skip(1), b.skip(1), c.skip(1));
        } else if a[0] != b[0] && b[0] != c[0] {
            lemma_comp_le_trans(a[0], b[0], c[0]);
            if a[0] == c[0] {
                lemma_comp_le_antisym(a[0], b[0]);
            }
        }
    }
}

pub proof fn lemma_comps_le_antisym(a: Seq<Seq<char>>, b: Seq<Seq<char>>)
    requires
        comps_le(a, b),
        comps_le(b, a),
    ensures
        a == b,
    decreases a.len(),
{
    if a.len() > 0 && b.len() > 0 {
        if a[0] == b[0] {
            lemma_comps_le_antisym(a.skip(1), b.skip(1));
            assert(a =~= seq![a[0]] + a.skip(1));
            assert(b =~= seq![b[0]] + b.skip(1));
        } else {
            lemma_comp_le_antisym(a[0], b[0]);
        }
    }
}

fn comp_rank_exec(c: &Vec<char>) -> (r: u8)
    ensures
        r as int == comp_rank(c@),
{
    if crate::paths::is_root_comp(c) {
        0
    } else if crate::paths::is_cur_comp(c) {
        1
    } else if crate::paths::is_parent_comp(c) {
        2
    } else {
        3
    }
}

/// `a <= b` in the order of paths, on their components.
pub fn comps_le_exec(a: &Vec<Vec<char>>, b: &Vec<Vec<char>>) -> (r: bool)
    ensures
        r == comps_le(crate::paths::views(a@), crate::paths::views(b@)),
{
    let ghost av = crate::paths::views(a@);
    let ghost bv = crate::paths::views(b@);
    let mut i: usize = 0;
    assert(av.skip(0) == av);
    assert(bv.skip(0) == bv);
    while i < a.len() && i < b.len() && crate::text::chars_eq(&a[i], &b[i])
        invariant
            av == crate::paths::views(a@),
            bv == crate::paths::views(b@),
            i <= a@.len(),
            i <= b@.len(),
            comps_le(av, bv) == comps_le(av.skip(i as int), bv.skip(i as int)),
        decreases a@.len() - i,
    {
        assert(av.skip(i as int)[0] == a@[i as int]@);
        assert(bv.skip(i as int)[0] == b@[i as int]@);
        assert(av.skip(i as int).skip(1) == av.skip(i + 1));
        assert(bv.skip(i as int).skip(1) == bv.skip(i + 1));
        i = i + 1;
    }
    if i == a.len() {
        true
    } else if i == b.len() {
        false
    } else {
        assert(av.skip(i as int)[0] == a@[i as int]@);
        assert(bv.skip(i as int)[0] == b@[i as int]@);
        let ra = comp_rank_exec(&a[i]);
        let rb = comp_rank_exec(&b[i]);
        if ra != rb {
            ra < rb
        } else if ra == 3 {
            chars_le_exec(&a[i], &b[i])
        } else {
            true
        }
    }
}


/// The position before the first element of `r` that is not at most `x`.
pub open spec fn insert_pos<T: SortKey>(r: Seq<T::V>, x: T::V) -> int
    decreases r.len(),
{
    if r.len() == 0 {
        0
    } else if !T::vle(r[0], x) {
        0
    } else {
        1 + insert_pos::<T>(r.skip(1), x)
    }
}

proof fn lemma_insert_pos<T: SortKey>(r: Seq<T::V>, x: T::V)
    ensures
        0 <= insert_pos::<T>(r, x) <= r.len(),
        forall|i: int| 0 <= i < insert_pos::<T>(r, x) ==> T::vle(#[trigger] r[i], x),
        insert_pos::<T>(r, x) < r.len() ==> !T::vle(r[insert_pos::<T>(r, x)], x),
    decreases r.len(),
{
    if r.len() > 0 && T::vle(r[0], x) {
        lemma_insert_pos::<T>(r.skip(1), x);
        assert forall|i: int| 0 <= i < insert_pos::<T>(r, x) implies T::vle(#[trigger] r[i], x) by {
            if i > 0 {
                assert(r[i] == r.skip(1)[i - 1]);
            }
        }
        if insert_pos::<T>(r, x) < r.len() {
            assert(r[insert_pos::<T>(r, x)] == r.skip(1)[insert_pos::<T>(r.skip(1), x)]);
        }
    }
}

/// Every sequence has a sorted reordering.
proof fn lemma_sorted_witness<T: SortKey>(s: Seq<T::V>) -> (r: Seq<T::V>)
    ensures
        r.to_multiset() == s.to_multiset(),
        sorted_views::<T>(r),
    decreases s.len(),
{
    broadcast use vstd::multiset::group_multiset_axioms;
    if s.len() == 0 {
        vstd::seq_lib::to_multiset_len(s);
        vstd::multiset::lemma_multiset_empty_len(s.to_multiset());
        let e = Seq::<T::V>::empty();
        vstd::seq_lib::to_multiset_len(e);
        vstd::multiset::lemma_multiset_empty_len(e.to_multiset());
        e
    } else {
        let r0 = lemma_sorted_witness::<T>(s.drop_last());
        let x = s.last();
        lemma_insert_pos::<T>(r0, x);
        let j = insert_pos::<T>(r0, x);
        let r = r0.insert(j, x);
        vstd::seq_lib::to_multiset_insert(r0, j, x);
        vstd::seq_lib::to_multiset_build(s.drop_last(), x);
        assert(s.drop_last().push(x) =~= s);
        if j < r0.len() {
            T::lemma_total(r0[j], x);
        }
        assert forall|a: int, b: int| 0 <= a < b < r.len() implies T::vle(#[trigger] r[a], #[trigger] r[b]) by {
            if a < j && b == j {
                assert(r[a] == r0[a]);
            } else if a < j && b > j {
                assert(r[a] == r0[a]);
                assert(r[b] == r0[b - 1]);
            } else if a == j && b > j {
                assert(r[b] == r0[b - 1]);
                if b - 1 > j {
                    T::lemma_trans(x, r0[j], r0[b - 1]);
                }
            } else if a > j {
                assert(r[a] == r0[a - 1]);
                assert(r[b] == r0[b - 1]);
            } else {
                assert(r[a] == r0[a]);
                assert(r[b] == r0[b]);
            }
        }
        r
    }
}

/// The sorted ordering holds the same elements as `s`, in key order.
pub proof fn lemma_sort_spec<T: StrictSortKey>(s: Seq<T::V>)
    ensures
        sort_spec::<T>(s).to_multiset() == s.to_multiset(),
        sorted_views::<T>(sort_spec::<T>(s)),
{
    let w = lemma_sorted_witness::<T>(s);
    assert(w.to_multiset() == s.to_multiset() && sorted_views::<T>(w));
}

} // verus!
