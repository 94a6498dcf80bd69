//! What holds of every valid schema: the ranges of the variants partition
//! the ordinals of their category, every value has exactly one ordinal and
//! every ordinal exactly one value.

use crate::schema::{
    count, extent, is_layer, layer_at, ordinal, representable, start, CategoryModel, Shape,
};
use crate::validate::{
    defect, is_malformed, is_variant, malformed, malformed_at, malformed_in, malformed_upto,
    precedes, valid, Defect,
};
use vstd::prelude::*;

verus! {

/// The starts of the variants of a category never go down in declaration
/// order, and none lies beyond the count of the category.
pub proof fn lemma_start_monotone(s: Seq<CategoryModel>, c: int, v: int, w: int)
    requires
        0 <= c < s.len(),
        0 <= v <= w <= s[c].variants.len(),
    ensures
        start(s, c, v) <= start(s, c, w) <= count(s, c),
    decreases s[c].variants.len() - v,
{
    if v < w {
        lemma_start_monotone(s, c, v + 1, w);
    } else if w < s[c].variants.len() {
        lemma_start_monotone(s, c, v + 1, w + 1);
    }
}

/// Partition: the ranges of the variants of a category are contiguous and
/// disjoint, they come in declaration order starting at 0, and together they
/// make up the ordinals of the category.
pub proof fn lemma_partition(s: Seq<CategoryModel>, c: int, v: int, w: int)
    requires
        0 <= c < s.len(),
        0 <= v < w < s[c].variants.len(),
    ensures
        start(s, c, 0) == 0,
        start(s, c, v + 1) == start(s, c, v) + extent(s, c, v),
        start(s, c, v) + extent(s, c, v) <= start(s, c, w),
        start(s, c, w) + extent(s, c, w) <= count(s, c),
{
    lemma_start_monotone(s, c, v + 1, w);
    lemma_start_monotone(s, c, w + 1, s[c].variants.len() as int);
}

/// The ordinal of a value lies in the range of its first variant, and so
/// below the count of its category.
pub proof fn lemma_ordinal_in_range(s: Seq<CategoryModel>, c: int, path: Seq<usize>)
    requires
        valid(s),
        is_layer(s, c, path),
    ensures
        start(s, c, path[0] as int) <= ordinal(s, c, path) < start(s, c, path[0] + 1) <= count(
            s,
            c,
        ),
    decreases path.len(),
{
    let v = path[0] as int;
    assert(is_variant(s, c, v));
    assert(defect(s, c, v) is None);
    lemma_start_monotone(s, c, v + 1, s[c].variants.len() as int);
    assert(start(s, c, v + 1) == start(s, c, v) + extent(s, c, v));
    match s[c].variants[v] {
        Shape::Nested(j) => {
            lemma_ordinal_in_range(s, j as int, path.skip(1));
            assert(extent(s, c, v) == count(s, j as int));
        },
        _ => {
            assert(extent(s, c, v) == 1);
        },
    }
}

/// Two values of a category that have the same ordinal are the same value.
pub proof fn lemma_ordinal_unique(s: Seq<CategoryModel>, c: int, p: Seq<usize>, q: Seq<usize>)
    requires
        valid(s),
        is_layer(s, c, p),
        is_layer(s, c, q),
        ordinal(s, c, p) == ordinal(s, c, q),
    ensures
        p == q,
    decreases p.len(),
{
    lemma_ordinal_in_range(s, c, p);
    lemma_ordinal_in_range(s, c, q);
    let v = p[0] as int;
    let w = q[0] as int;
    if v < w {
        lemma_start_monotone(s, c, v + 1, w);
    } else if w < v {
        lemma_start_monotone(s, c, w + 1, v);
    }
    assert(v == w);
    match s[c].variants[v] {
        Shape::Nested(j) => {
            lemma_ordinal_unique(s, j as int, p.skip(1), q.skip(1));
            assert(p =~= seq![p[0]] + p.skip(1));
            assert(q =~= seq![q[0]] + q.skip(1));
        },
        _ => {
            assert(p =~= q);
        },
    }
}

/// Among the variants before `w`, the one whose range holds the ordinal `n`.
proof fn lemma_locate(s: Seq<CategoryModel>, c: int, n: nat, w: int) -> (v: int)
    requires
        0 <= c < s.len(),
        0 <= w <= s[c].variants.len(),
        n < start(s, c, w),
    ensures
        0 <= v < w,
        start(s, c, v) <= n < start(s, c, v + 1),
    decreases w,
{
    if n >= start(s, c, w - 1) {
        w - 1
    } else {
        lemma_locate(s, c, n, w - 1)
    }
}

/// Every ordinal below the count of a category is the ordinal of a value of
/// that category: the one this returns.
pub proof fn lemma_layer_exists(s: Seq<CategoryModel>, c: int, n: nat) -> (path: Seq<usize>)
    requires
        valid(s),
        representable(s),
        0 <= c < s.len(),
        n < count(s, c),
    ensures
        is_layer(s, c, path),
        ordinal(s, c, path) == n,
    decreases c,
{
    let v = lemma_locate(s, c, n, s[c].variants.len() as int);
    assert(is_variant(s, c, v));
    assert(defect(s, c, v) is None);
    assert(start(s, c, v + 1) == start(s, c, v) + extent(s, c, v));
    match s[c].variants[v] {
        Shape::Nested(j) => {
            let rest = lemma_layer_exists(s, j as int, (n - start(s, c, v)) as nat);
            let path = seq![v as usize] + rest;
            assert(path.skip(1) =~= rest);
            path
        },
        _ => seq![v as usize],
    }
}

/// Round trip: for every ordinal `n` below the count of a category,
/// `layer_at` gives a value of the category, and the ordinal of that value
/// is `n` again.
pub proof fn lemma_round_trip(s: Seq<CategoryModel>, c: int, n: nat)
    requires
        valid(s),
        representable(s),
        0 <= c < s.len(),
        n < count(s, c),
    ensures
        is_layer(s, c, layer_at(s, c, n)),
        ordinal(s, c, layer_at(s, c, n)) == n,
{
    let path = lemma_layer_exists(s, c, n);
}

/// Round trip, the other way: the value at the ordinal of a value is that
/// value.
pub proof fn lemma_layer_at_ordinal(s: Seq<CategoryModel>, c: int, path: Seq<usize>)
    requires
        valid(s),
        is_layer(s, c, path),
    ensures
        layer_at(s, c, ordinal(s, c, path)) == path,
{
    lemma_ordinal_unique(s, c, layer_at(s, c, ordinal(s, c, path)), path);
}

/// Out of range: no value of a category has an ordinal at or beyond the
/// count of the category.
pub proof fn lemma_out_of_range(s: Seq<CategoryModel>, c: int, n: nat)
    requires
        valid(s),
        n >= count(s, c),
    ensures
        forall|path: Seq<usize>| is_layer(s, c, path) ==> ordinal(s, c, path) != n,
{
    assert forall|path: Seq<usize>| is_layer(s, c, path) implies ordinal(s, c, path) != n by {
        lemma_ordinal_in_range(s, c, path);
    }
}

/// The count of every category of a valid schema fits `usize`.
pub proof fn lemma_count_fits(s: Seq<CategoryModel>, c: int)
    requires
        valid(s),
        0 <= c < s.len(),
    ensures
        count(s, c) <= usize::MAX,
{
    let n = s[c].variants.len() as int;
    if n > 0 {
        assert(is_variant(s, c, n - 1));
        assert(defect(s, c, n - 1) is None);
    }
}

/// Nested independence: under a nested variant, a path is a value exactly
/// when its rest is a value of the nested category, and its ordinal is the
/// ordinal of the rest, counted from 0 in the nested category, moved by the
/// start of the variant.
pub proof fn lemma_nested_offset(s: Seq<CategoryModel>, c: int, v: usize, j: usize, rest: Seq<usize>)
    requires
        is_variant(s, c, v as int),
        s[c].variants[v as int] == Shape::Nested(j),
    ensures
        is_layer(s, c, seq![v] + rest) == is_layer(s, j as int, rest),
        ordinal(s, c, seq![v] + rest) == start(s, c, v as int) + ordinal(s, j as int, rest),
{
    assert((seq![v] + rest).skip(1) =~= rest);
}

/// A category that has a value has a count above 0.
pub proof fn lemma_inhabited(s: Seq<CategoryModel>, c: int, path: Seq<usize>)
    requires
        valid(s),
        is_layer(s, c, path),
    ensures
        count(s, c) > 0,
{
    lemma_ordinal_in_range(s, c, path);
}

/// Uninhabited propagation: a variant nested on a category whose count is 0
/// takes up no ordinal, so that the variant after it starts where it starts,
/// and no value of its category goes through it.
pub proof fn lemma_uninhabited(s: Seq<CategoryModel>, c: int, v: int, j: usize)
    requires
        valid(s),
        is_variant(s, c, v),
        s[c].variants[v] == Shape::Nested(j),
        count(s, j as int) == 0,
    ensures
        extent(s, c, v) == 0,
        start(s, c, v + 1) == start(s, c, v),
        forall|path: Seq<usize>| is_layer(s, c, path) ==> path[0] != v,
{
    assert(start(s, c, v + 1) == start(s, c, v) + extent(s, c, v));
    assert forall|path: Seq<usize>| is_layer(s, c, path) implies path[0] != v by {
        if path[0] == v {
            lemma_inhabited(s, j as int, path.skip(1));
        }
    }
}

/// Whether going down from category `a` through the nested variants that
/// `path` names, one after the other, ends in category `b`.
pub open spec fn descends(s: Seq<CategoryModel>, a: int, path: Seq<usize>, b: int) -> bool
    decreases path.len(),
{
    &&& path.len() > 0
    &&& is_variant(s, a, path[0] as int)
    &&& s[a].variants[path[0] as int] matches Shape::Nested(j)
    &&& if path.len() == 1 {
        j == b
    } else {
        descends(s, j as int, path.skip(1), b)
    }
}

/// Root exclusivity: a category that is nested in another, directly or
/// through further categories, is defined before that other and is not
/// tagged root.
pub proof fn lemma_root_exclusive(s: Seq<CategoryModel>, a: int, path: Seq<usize>, b: int)
    requires
        valid(s),
        descends(s, a, path, b),
    ensures
        0 <= b < a,
        !s[b].root,
    decreases path.len(),
{
    let v = path[0] as int;
    assert(defect(s, a, v) is None);
    match s[a].variants[v] {
        Shape::Nested(j) => {
            if path.len() > 1 {
                lemma_root_exclusive(s, j as int, path.skip(1), b);
            }
        },
        _ => {},
    }
}

/// Of the list of the ill-shaped variants among the first `v` variants of
/// one category: each entry is such a variant, they come in declaration
/// order, and each such variant has its entry.
proof fn lemma_malformed_in(s: Seq<CategoryModel>, c: int, v: int)
    requires
        representable(s),
        0 <= c < s.len(),
        0 <= v <= s[c].variants.len(),
    ensures
        forall|i: int|
            0 <= i < malformed_in(s, c, v).len() ==> {
                let e = #[trigger] malformed_in(s, c, v)[i];
                e.category == c && e.variant < v && is_malformed(s, c, e.variant as int)
                    && e.defect == Defect::Malformed
            },
        forall|i: int, j: int|
            0 <= i < j < malformed_in(s, c, v).len() ==> precedes(
                #[trigger] malformed_in(s, c, v)[i],
                #[trigger] malformed_in(s, c, v)[j],
            ),
        forall|w: int|
            0 <= w < v && is_malformed(s, c, w) ==> malformed_in(s, c, v).contains(
                #[trigger] malformed_at(c, w),
            ),
    decreases v,
{
    if v > 0 {
        lemma_malformed_in(s, c, v - 1);
        let before = malformed_in(s, c, v - 1);
        let all = malformed_in(s, c, v);
        assert forall|w: int| 0 <= w < v && is_malformed(s, c, w) implies all.contains(
            #[trigger] malformed_at(c, w),
        ) by {
            if w == v - 1 {
                assert(all[all.len() - 1] == malformed_at(c, w));
            } else {
                let i = choose|i: int| 0 <= i < before.len() && before[i] == malformed_at(c, w);
                assert(all[i] == malformed_at(c, w));
            }
        }
    }
}

/// The same of the list of the ill-shaped variants of the first `c`
/// categories, in schema order.
proof fn lemma_malformed_upto(s: Seq<CategoryModel>, c: int)
    requires
        representable(s),
        0 <= c <= s.len(),
    ensures
        forall|i: int|
            0 <= i < malformed_upto(s, c).len() ==> {
                let e = #[trigger] malformed_upto(s, c)[i];
                e.category < c && is_malformed(s, e.category as int, e.variant as int)
                    && e.defect == Defect::Malformed
            },
        forall|i: int, j: int|
            0 <= i < j < malformed_upto(s, c).len() ==> precedes(
                #[trigger] malformed_upto(s, c)[i],
                #[trigger] malformed_upto(s, c)[j],
            ),
        forall|k: int, w: int|
            0 <= k < c && is_malformed(s, k, w) ==> malformed_upto(s, c).contains(
                #[trigger] malformed_at(k, w),
            ),
    decreases c,
{
    if c > 0 {
        lemma_malformed_upto(s, c - 1);
        lemma_malformed_in(s, c - 1, s[c - 1].variants.len() as int);
        let before = malformed_upto(s, c - 1);
        let last = malformed_in(s, c - 1, s[c - 1].variants.len() as int);
        let all = malformed_upto(s, c);
        assert(all == before + last);
        assert forall|i: int| 0 <= i < all.len() implies {
            let e = #[trigger] all[i];
            e.category < c && is_malformed(s, e.category as int, e.variant as int) && e.defect
                == Defect::Malformed
        } by {
            if i < before.len() {
                assert(all[i] == before[i]);
            } else {
                assert(all[i] == last[i - before.len()]);
            }
        }
        assert forall|i: int, j: int| 0 <= i < j < all.len() implies precedes(
            #[trigger] all[i],
            #[trigger] all[j],
        ) by {
            if j < before.len() {
                assert(all[i] == before[i] && all[j] == before[j]);
            } else if i < before.len() {
                assert(all[i] == before[i] && all[j] == last[j - before.len()]);
            } else {
                assert(all[i] == last[i - before.len()] && all[j] == last[j - before.len()]);
            }
        }
        assert forall|k: int, w: int| 0 <= k < c && is_malformed(s, k, w) implies all.contains(
            #[trigger] malformed_at(k, w),
        ) by {
            if k < c - 1 {
                let i = choose|i: int| 0 <= i < before.len() && before[i] == malformed_at(k, w);
                assert(all[i] == malformed_at(k, w));
            } else {
                let i = choose|i: int| 0 <= i < last.len() && last[i] == malformed_at(k, w);
                assert(all[before.len() + i] == malformed_at(k, w));
            }
        }
    }
}

/// The list of the ill-shaped variants of a schema holds each of them and
/// nothing else, each with `Defect::Malformed`, in schema order.
pub proof fn lemma_malformed_lists(s: Seq<CategoryModel>)
    requires
        representable(s),
    ensures
        forall|i: int|
            0 <= i < malformed(s).len() ==> {
                let e = #[trigger] malformed(s)[i];
                is_malformed(s, e.category as int, e.variant as int) && e.defect
                    == Defect::Malformed
            },
        forall|i: int, j: int|
            0 <= i < j < malformed(s).len() ==> precedes(
                #[trigger] malformed(s)[i],
                #[trigger] malformed(s)[j],
            ),
        forall|c: int, v: int|
            is_malformed(s, c, v) ==> malformed(s).contains(#[trigger] malformed_at(c, v)),
{
    lemma_malformed_upto(s, s.len() as int);
}

/// Whether two schemas declare the same variants and differ at most in
/// which categories are tagged root.
pub open spec fn same_variants(s: Seq<CategoryModel>, t: Seq<CategoryModel>) -> bool {
    &&& s.len() == t.len()
    &&& forall|c: int| 0 <= c < s.len() ==> (#[trigger] s[c]).variants == t[c].variants
}

/// Starts and counts do not depend on the tags.
pub proof fn lemma_start_untagged(s: Seq<CategoryModel>, t: Seq<CategoryModel>, c: int, v: int)
    requires
        same_variants(s, t),
    ensures
        start(s, c, v) == start(t, c, v),
    decreases c, v,
{
    if 0 <= c < s.len() && 0 < v <= s[c].variants.len() {
        assert(s[c].variants == t[c].variants);
        lemma_start_untagged(s, t, c, v - 1);
        match s[c].variants[v - 1] {
            Shape::Nested(j) => {
                if j < c {
                    assert(s[j as int].variants == t[j as int].variants);
                    lemma_start_untagged(s, t, j as int, s[j as int].variants.len() as int);
                    assert(count(s, j as int) == count(t, j as int));
                }
            },
            _ => {},
        }
        assert(extent(s, c, v - 1) == extent(t, c, v - 1));
    } else if 0 <= c < s.len() {
        assert(s[c].variants == t[c].variants);
    }
}

/// The tag alone breaks no rule: of two schemas with the same variants, whose
/// tags differ only on categories that no variant nests, both are valid or
/// neither is.
pub proof fn lemma_outer_tag(s: Seq<CategoryModel>, t: Seq<CategoryModel>)
    requires
        same_variants(s, t),
        forall|c: int, v: int|
            is_variant(s, c, v) ==> (#[trigger] s[c].variants[v] matches Shape::Nested(j) ==> j
                < s.len() ==> s[j as int].root == t[j as int].root),
    ensures
        valid(s) == valid(t),
{
    assert forall|c: int, v: int| is_variant(s, c, v) implies #[trigger] defect(s, c, v) == defect(
        t,
        c,
        v,
    ) by {
        assert(s[c].variants == t[c].variants);
        assert(s[c].variants[v] == t[c].variants[v]);
        lemma_start_untagged(s, t, c, v + 1);
    }
    assert forall|c: int, v: int| is_variant(s, c, v) == is_variant(t, c, v) by {
        if 0 <= c < s.len() {
            assert(s[c].variants == t[c].variants);
        }
    }
    if valid(s) {
        assert forall|c: int, v: int| is_variant(t, c, v) implies #[trigger] defect(t, c, v)
            is None by {
            assert(is_variant(s, c, v));
            assert(defect(s, c, v) is None);
        }
    }
    if valid(t) {
        assert forall|c: int, v: int| is_variant(s, c, v) implies #[trigger] defect(s, c, v)
            is None by {
            assert(is_variant(t, c, v));
            assert(defect(t, c, v) is None);
        }
    }
}

} // verus!
