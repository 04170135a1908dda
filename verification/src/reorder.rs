use vstd::prelude::*;
use crate::order::{
    chars_lt, lemma_chars_lt_asymmetric, lemma_chars_lt_irreflexive, lemma_path_lt_asymmetric,
    lemma_path_lt_total, path_lt,
};
use crate::table::lemma_grouping_facts;
use crate::tree::{
    forest, group_forest, group_insert, grouping, insert_sorted, lemma_group_forest_index,
    lemma_grouping_ordered, lemma_max_path_len, max_path_len, names_increasing, sorted_by_path,
    tail_of, Groups, SummaryView,
};

verus! {

/// No two benchmarks of `s` share a path.
pub open spec fn distinct_paths(s: Seq<SummaryView>) -> bool {
    forall|i: int, j: int|
        0 <= i < s.len() && 0 <= j < s.len() && i != j ==> #[trigger] s[i].path != #[trigger] s[j].path
}

proof fn lemma_cons_contains<A>(a: A, t: Seq<A>)
    ensures
        forall|y: A|
            #![trigger (seq![a] + t).contains(y)]
            #![trigger t.contains(y)]
            (seq![a] + t).contains(y) <==> (y == a || t.contains(y)),
{
    let s = seq![a] + t;
    assert forall|y: A| s.contains(y) <==> (y == a || t.contains(y)) by {
        if s.contains(y) {
            let i = choose|i: int| 0 <= i < s.len() && s[i] == y;
            if i > 0 {
                assert(t[i - 1] == y);
            }
        }
        if t.contains(y) {
            let i = choose|i: int| 0 <= i < t.len() && t[i] == y;
            assert(s[i + 1] == y);
        }
        if y == a {
            assert(s[0] == y);
        }
    }
}

proof fn lemma_push_contains<A>(t: Seq<A>, a: A)
    ensures
        forall|y: A|
            #![trigger t.push(a).contains(y)]
            #![trigger t.contains(y)]
            t.push(a).contains(y) <==> (y == a || t.contains(y)),
{
    let s = t.push(a);
    assert forall|y: A| s.contains(y) <==> (y == a || t.contains(y)) by {
        if s.contains(y) {
            let i = choose|i: int| 0 <= i < s.len() && s[i] == y;
            if i < t.len() {
                assert(t[i] == y);
            }
        }
        if t.contains(y) {
            let i = choose|i: int| 0 <= i < t.len() && t[i] == y;
            assert(s[i] == y);
        }
        if y == a {
            assert(s[t.len() as int] == y);
        }
    }
}

proof fn lemma_insert_sorted_contains(s: Seq<SummaryView>, x: SummaryView)
    ensures
        forall|y: SummaryView|
            #![trigger insert_sorted(s, x).contains(y)]
            #![trigger s.contains(y)]
            insert_sorted(s, x).contains(y) <==> (y == x || s.contains(y)),
    decreases s.len(),
{
    let r = insert_sorted(s, x);
    if s.len() == 0 {
        lemma_cons_contains(x, s);
        assert(r =~= seq![x] + s);
    } else if path_lt(x.path, s[0].path) {
        lemma_cons_contains(x, s);
        assert(r == seq![x] + s);
    } else {
        let t = s.drop_first();
        lemma_insert_sorted_contains(t, x);
        lemma_cons_contains(s[0], insert_sorted(t, x));
        lemma_cons_contains(s[0], t);
        assert(s =~= seq![s[0]] + t);
        assert(r == seq![s[0]] + insert_sorted(t, x));
        assert forall|y: SummaryView| r.contains(y) <==> (y == x || s.contains(y)) by {
            assert(r.contains(y) <==> (y == s[0] || insert_sorted(t, x).contains(y)));
            assert(s.contains(y) <==> (y == s[0] || t.contains(y)));
        }
    }
}

proof fn lemma_insert_sorted_distinct(s: Seq<SummaryView>, x: SummaryView)
    requires
        distinct_paths(s),
        forall|i: int| 0 <= i < s.len() ==> #[trigger] s[i].path != x.path,
    ensures
        distinct_paths(insert_sorted(s, x)),
    decreases s.len(),
{
    let r = insert_sorted(s, x);
    if s.len() == 0 {
        assert(r =~= seq![x]);
    } else if path_lt(x.path, s[0].path) {
        assert(r =~= seq![x] + s);
        assert forall|i: int, j: int|
            0 <= i < r.len() && 0 <= j < r.len() && i != j implies #[trigger] r[i].path
            != #[trigger] r[j].path by {
            if i > 0 && j > 0 {
                assert(r[i] == s[i - 1]);
                assert(r[j] == s[j - 1]);
            } else if i > 0 {
                assert(r[i] == s[i - 1]);
            } else {
                assert(r[j] == s[j - 1]);
            }
        }
    } else {
        let t = s.drop_first();
        assert forall|i: int, j: int|
            0 <= i < t.len() && 0 <= j < t.len() && i != j implies #[trigger] t[i].path
            != #[trigger] t[j].path by {
            assert(t[i] == s[i + 1]);
            assert(t[j] == s[j + 1]);
        }
        assert forall|i: int| 0 <= i < t.len() implies #[trigger] t[i].path != x.path by {
            assert(t[i] == s[i + 1]);
        }
        lemma_insert_sorted_distinct(t, x);
        lemma_insert_sorted_contains(t, x);
        let rt = insert_sorted(t, x);
        assert(r =~= seq![s[0]] + rt);
        assert forall|k: int| 0 <= k < rt.len() implies #[trigger] rt[k].path != s[0].path by {
            assert(rt.contains(rt[k]));
            if rt[k] != x {
                let m = choose|m: int| 0 <= m < t.len() && t[m] == rt[k];
                assert(t[m] == s[m + 1]);
            }
        }
        assert forall|i: int, j: int|
            0 <= i < r.len() && 0 <= j < r.len() && i != j implies #[trigger] r[i].path
            != #[trigger] r[j].path by {
            if i > 0 && j > 0 {
                assert(r[i] == rt[i - 1]);
                assert(r[j] == rt[j - 1]);
            } else if i > 0 {
                assert(r[i] == rt[i - 1]);
            } else {
                assert(r[j] == rt[j - 1]);
            }
        }
    }
}

/// The benchmarks that stay at the top level are those of `items` with at
/// most one path segment, each path once.
proof fn lemma_leaves_of(items: Seq<SummaryView>)
    requires
        distinct_paths(items),
    ensures
        forall|y: SummaryView|
            #![trigger grouping(items).0.contains(y)]
            #![trigger items.contains(y)]
            grouping(items).0.contains(y) <==> (items.contains(y) && y.path.len() <= 1),
        distinct_paths(grouping(items).0),
    decreases items.len(),
{
    if items.len() > 0 {
        let prev = items.drop_last();
        let x = items.last();
        assert forall|i: int, j: int|
            0 <= i < prev.len() && 0 <= j < prev.len() && i != j implies #[trigger] prev[i].path
            != #[trigger] prev[j].path by {
            assert(prev[i] == items[i]);
            assert(prev[j] == items[j]);
        }
        lemma_leaves_of(prev);
        assert(items =~= prev.push(x));
        lemma_push_contains(prev, x);
        let s = grouping(prev).0;
        if x.path.len() <= 1 {
            lemma_insert_sorted_contains(s, x);
            assert forall|i: int| 0 <= i < s.len() implies #[trigger] s[i].path != x.path by {
                assert(s.contains(s[i]));
                let m = choose|m: int| 0 <= m < prev.len() && prev[m] == s[i];
                assert(prev[m] == items[m]);
                assert(x == items[items.len() - 1]);
            }
            lemma_insert_sorted_distinct(s, x);
        }
    }
}

/// Two sequences sorted by path, each path once, that hold the same
/// benchmarks are the same sequence.
proof fn lemma_sorted_unique(s: Seq<SummaryView>, t: Seq<SummaryView>)
    requires
        sorted_by_path(s),
        sorted_by_path(t),
        distinct_paths(s),
        distinct_paths(t),
        forall|y: SummaryView| #![trigger s.contains(y)] #![trigger t.contains(y)] s.contains(y) <==> t.contains(y),
    ensures
        s == t,
    decreases s.len(),
{
    if s.len() == 0 {
        if t.len() > 0 {
            assert(t.contains(t[0]));
        }
        assert(s =~= t);
    } else {
        assert(s.contains(s[0]));
        assert(t.len() > 0);
        assert(t.contains(t[0]));
        let k = choose|k: int| 0 <= k < t.len() && t[k] == s[0];
        let m = choose|m: int| 0 <= m < s.len() && s[m] == t[0];
        if k > 0 && m > 0 {
            lemma_path_lt_total(s[0].path, s[m].path);
            lemma_path_lt_total(t[0].path, t[k].path);
            lemma_path_lt_asymmetric(s[0].path, t[0].path);
        }
        assert(s[0] == t[0]);
        let s1 = s.drop_first();
        let t1 = t.drop_first();
        assert forall|i: int, j: int| 0 <= i < j < s1.len() implies !path_lt(
            #[trigger] s1[j].path,
            #[trigger] s1[i].path,
        ) by {
            assert(s1[i] == s[i + 1]);
            assert(s1[j] == s[j + 1]);
        }
        assert forall|i: int, j: int| 0 <= i < j < t1.len() implies !path_lt(
            #[trigger] t1[j].path,
            #[trigger] t1[i].path,
        ) by {
            assert(t1[i] == t[i + 1]);
            assert(t1[j] == t[j + 1]);
        }
        assert forall|i: int, j: int|
            0 <= i < s1.len() && 0 <= j < s1.len() && i != j implies #[trigger] s1[i].path
            != #[trigger] s1[j].path by {
            assert(s1[i] == s[i + 1]);
            assert(s1[j] == s[j + 1]);
        }
        assert forall|i: int, j: int|
            0 <= i < t1.len() && 0 <= j < t1.len() && i != j implies #[trigger] t1[i].path
            != #[trigger] t1[j].path by {
            assert(t1[i] == t[i + 1]);
            assert(t1[j] == t[j + 1]);
        }
        lemma_cons_contains(s[0], s1);
        lemma_cons_contains(t[0], t1);
        assert(s =~= seq![s[0]] + s1);
        assert(t =~= seq![t[0]] + t1);
        assert forall|y: SummaryView| s1.contains(y) <==> t1.contains(y) by {
            if s1.contains(y) {
                let i = choose|i: int| 0 <= i < s1.len() && s1[i] == y;
                assert(s[i + 1] == y);
                if y == t[0] {
                    assert(s[i + 1].path == s[0].path);
                }
            }
            if t1.contains(y) {
                let i = choose|i: int| 0 <= i < t1.len() && t1[i] == y;
                assert(t[i + 1] == y);
                if y == s[0] {
                    assert(t[i + 1].path == t[0].path);
                }
            }
        }
        lemma_sorted_unique(s1, t1);
    }
}

/// The members of the first group of `g` named `n`; none when there is no
/// such group.
pub open spec fn group_of(g: Groups, n: Seq<char>) -> Seq<SummaryView>
    decreases g.len(),
{
    if g.len() == 0 {
        Seq::empty()
    } else if g[0].0 == n {
        g[0].1
    } else {
        group_of(g.drop_first(), n)
    }
}

proof fn lemma_group_of_absent(g: Groups, n: Seq<char>)
    requires
        forall|j: int| 0 <= j < g.len() ==> #[trigger] g[j].0 != n,
    ensures
        group_of(g, n) == Seq::<SummaryView>::empty(),
    decreases g.len(),
{
    if g.len() > 0 {
        let t = g.drop_first();
        assert forall|j: int| 0 <= j < t.len() implies #[trigger] t[j].0 != n by {
            assert(t[j] == g[j + 1]);
        }
        lemma_group_of_absent(t, n);
    }
}

proof fn lemma_names_increasing_tail(g: Groups)
    requires
        names_increasing(g),
        g.len() > 0,
    ensures
        names_increasing(g.drop_first()),
        forall|j: int| 0 <= j < g.drop_first().len() ==> chars_lt(g[0].0, #[trigger] g.drop_first()[j].0),
{
    let t = g.drop_first();
    assert forall|i: int, j: int| 0 <= i < j < t.len() implies chars_lt(
        #[trigger] t[i].0,
        #[trigger] t[j].0,
    ) by {
        assert(t[i] == g[i + 1]);
        assert(t[j] == g[j + 1]);
    }
    assert forall|j: int| 0 <= j < t.len() implies chars_lt(g[0].0, #[trigger] t[j].0) by {
        assert(t[j] == g[j + 1]);
    }
}

proof fn lemma_group_of_at(g: Groups, j: int)
    requires
        names_increasing(g),
        0 <= j < g.len(),
    ensures
        group_of(g, g[j].0) == g[j].1,
    decreases g.len(),
{
    if j > 0 {
        assert(chars_lt(g[0].0, g[j].0));
        lemma_chars_lt_irreflexive(g[0].0);
        lemma_names_increasing_tail(g);
        assert(g.drop_first()[j - 1] == g[j]);
        lemma_group_of_at(g.drop_first(), j - 1);
    }
}

proof fn lemma_group_of_index(g: Groups, n: Seq<char>) -> (k: int)
    requires
        group_of(g, n).len() > 0,
    ensures
        0 <= k < g.len(),
        g[k].0 == n,
        group_of(g, n) == g[k].1,
    decreases g.len(),
{
    if g[0].0 == n {
        0
    } else {
        let k = lemma_group_of_index(g.drop_first(), n);
        assert(g.drop_first()[k] == g[k + 1]);
        k + 1
    }
}

proof fn lemma_group_insert_of(g: Groups, key: Seq<char>, x: SummaryView)
    requires
        names_increasing(g),
    ensures
        forall|n: Seq<char>|
            #[trigger] group_of(group_insert(g, key, x), n) == if n == key {
                group_of(g, n).push(x)
            } else {
                group_of(g, n)
            },
    decreases g.len(),
{
    let r = group_insert(g, key, x);
    if g.len() == 0 {
        assert(r =~= seq![(key, seq![x])]);
        assert forall|n: Seq<char>|
            #[trigger] group_of(r, n) == if n == key {
                group_of(g, n).push(x)
            } else {
                group_of(g, n)
            } by {
            assert(r.len() == 1);
            assert(r[0] == (key, seq![x]));
            assert(group_of(r.drop_first(), n) == Seq::<SummaryView>::empty());
            assert(group_of(g, n) == Seq::<SummaryView>::empty());
            assert(seq![x] =~= Seq::<SummaryView>::empty().push(x));
        }
    } else if g[0].0 == key {
        assert(r.drop_first() =~= g.drop_first());
        assert forall|n: Seq<char>|
            #[trigger] group_of(r, n) == if n == key {
                group_of(g, n).push(x)
            } else {
                group_of(g, n)
            } by {}
    } else if chars_lt(key, g[0].0) {
        assert(r.drop_first() =~= g);
        assert forall|j: int| 0 <= j < g.len() implies #[trigger] g[j].0 != key by {
            if j > 0 {
                crate::order::lemma_chars_lt_transitive(key, g[0].0, g[j].0);
            }
            lemma_chars_lt_irreflexive(key);
        }
        lemma_group_of_absent(g, key);
        assert forall|n: Seq<char>|
            #[trigger] group_of(r, n) == if n == key {
                group_of(g, n).push(x)
            } else {
                group_of(g, n)
            } by {
            assert(seq![x] =~= Seq::<SummaryView>::empty().push(x));
        }
    } else {
        let t = g.drop_first();
        lemma_names_increasing_tail(g);
        lemma_group_insert_of(t, key, x);
        assert(r.drop_first() =~= group_insert(t, key, x));
        assert forall|n: Seq<char>|
            #[trigger] group_of(r, n) == if n == key {
                group_of(g, n).push(x)
            } else {
                group_of(g, n)
            } by {
            assert(group_of(r.drop_first(), n) == group_of(group_insert(t, key, x), n));
        }
    }
}

/// `y` is what is left of a benchmark of `items` whose path has at least
/// two segments, the first being `n`.
pub open spec fn grouped_under(items: Seq<SummaryView>, n: Seq<char>, y: SummaryView) -> bool {
    exists|x: SummaryView|
        #[trigger] items.contains(x) && x.path.len() >= 2 && x.path[0] == n && y == tail_of(x)
}

proof fn lemma_push_distinct(s: Seq<SummaryView>, a: SummaryView)
    requires
        distinct_paths(s),
        forall|i: int| 0 <= i < s.len() ==> #[trigger] s[i].path != a.path,
    ensures
        distinct_paths(s.push(a)),
{
    let r = s.push(a);
    assert forall|i: int, j: int|
        0 <= i < r.len() && 0 <= j < r.len() && i != j implies #[trigger] r[i].path
        != #[trigger] r[j].path by {
        if i < s.len() {
            assert(r[i] == s[i]);
        }
        if j < s.len() {
            assert(r[j] == s[j]);
        }
    }
}

/// The groups of `items` hold, under each name, what is left of the
/// benchmarks whose paths start with that name, each path once.
proof fn lemma_groups_of(items: Seq<SummaryView>)
    requires
        distinct_paths(items),
    ensures
        forall|n: Seq<char>, y: SummaryView|
            #[trigger] group_of(grouping(items).1, n).contains(y) <==> grouped_under(items, n, y),
        forall|n: Seq<char>| #[trigger] distinct_paths(group_of(grouping(items).1, n)),
    decreases items.len(),
{
    if items.len() > 0 {
        let prev = items.drop_last();
        let x = items.last();
        assert forall|i: int, j: int|
            0 <= i < prev.len() && 0 <= j < prev.len() && i != j implies #[trigger] prev[i].path
            != #[trigger] prev[j].path by {
            assert(prev[i] == items[i]);
            assert(prev[j] == items[j]);
        }
        lemma_groups_of(prev);
        lemma_grouping_ordered(prev);
        assert(items =~= prev.push(x));
        lemma_push_contains(prev, x);
        let gp = grouping(prev).1;
        let g = grouping(items).1;
        if x.path.len() <= 1 {
            assert(g == gp);
            assert forall|n: Seq<char>, y: SummaryView|
                #[trigger] group_of(g, n).contains(y) <==> grouped_under(items, n, y) by {
                if grouped_under(items, n, y) {
                    let z = choose|z: SummaryView|
                        #[trigger] items.contains(z) && z.path.len() >= 2 && z.path[0] == n && y
                            == tail_of(z);
                    assert(prev.contains(z));
                }
                if grouped_under(prev, n, y) {
                    let z = choose|z: SummaryView|
                        #[trigger] prev.contains(z) && z.path.len() >= 2 && z.path[0] == n && y
                            == tail_of(z);
                    assert(items.contains(z));
                }
            }
        } else {
            let h = x.path[0];
            let t0 = tail_of(x);
            assert(g == group_insert(gp, h, t0));
            lemma_group_insert_of(gp, h, t0);
            assert forall|n: Seq<char>, y: SummaryView|
                #[trigger] group_of(g, n).contains(y) <==> grouped_under(items, n, y) by {
                lemma_push_contains(group_of(gp, n), t0);
                if grouped_under(items, n, y) {
                    let z = choose|z: SummaryView|
                        #[trigger] items.contains(z) && z.path.len() >= 2 && z.path[0] == n && y
                            == tail_of(z);
                    if z != x {
                        assert(prev.contains(z));
                        assert(grouped_under(prev, n, y));
                    }
                }
                if grouped_under(prev, n, y) {
                    let z = choose|z: SummaryView|
                        #[trigger] prev.contains(z) && z.path.len() >= 2 && z.path[0] == n && y
                            == tail_of(z);
                    assert(items.contains(z));
                }
                if n == h && y == t0 {
                    assert(items.contains(x));
                }
            }
            assert forall|n: Seq<char>| #[trigger] distinct_paths(group_of(g, n)) by {
                if n == h {
                    let m = group_of(gp, h);
                    assert(distinct_paths(m));
                    assert forall|i: int| 0 <= i < m.len() implies #[trigger] m[i].path != t0.path by {
                        assert(m.contains(m[i]));
                        assert(grouped_under(prev, h, m[i]));
                        let z = choose|z: SummaryView|
                            #[trigger] prev.contains(z) && z.path.len() >= 2 && z.path[0] == h
                                && m[i] == tail_of(z);
                        let q = choose|q: int| 0 <= q < prev.len() && prev[q] == z;
                        assert(prev[q] == items[q]);
                        assert(x == items[items.len() - 1]);
                        if m[i].path == t0.path {
                            assert(z.path =~= seq![h] + m[i].path);
                            assert(x.path =~= seq![h] + t0.path);
                        }
                    }
                    lemma_push_distinct(m, t0);
                }
            }
        }
    }
}

/// Two lists of groups, with increasing names and no empty group, that have
/// a group under the same names have the same names in the same places.
proof fn lemma_group_names_unique(g: Groups, h: Groups)
    requires
        names_increasing(g),
        names_increasing(h),
        forall|j: int| 0 <= j < g.len() ==> #[trigger] g[j].1.len() > 0,
        forall|j: int| 0 <= j < h.len() ==> #[trigger] h[j].1.len() > 0,
        forall|n: Seq<char>| #[trigger] group_of(g, n).len() > 0 <==> group_of(h, n).len() > 0,
    ensures
        g.len() == h.len(),
        forall|j: int| 0 <= j < g.len() ==> #[trigger] g[j].0 == h[j].0,
    decreases g.len(),
{
    if g.len() == 0 {
        if h.len() > 0 {
            lemma_group_of_at(h, 0);
            assert(h[0].1.len() > 0);
            assert(group_of(h, h[0].0).len() > 0);
            assert(group_of(g, h[0].0).len() > 0);
        }
    } else if h.len() == 0 {
        lemma_group_of_at(g, 0);
        assert(g[0].1.len() > 0);
        assert(group_of(g, g[0].0).len() > 0);
        assert(group_of(h, g[0].0).len() > 0);
    } else {
        lemma_group_of_at(g, 0);
        lemma_group_of_at(h, 0);
        assert(g[0].1.len() > 0);
        assert(h[0].1.len() > 0);
        assert(group_of(g, g[0].0).len() > 0);
        assert(group_of(h, h[0].0).len() > 0);
        assert(group_of(h, g[0].0).len() > 0);
        assert(group_of(g, h[0].0).len() > 0);
        let k = lemma_group_of_index(h, g[0].0);
        let m = lemma_group_of_index(g, h[0].0);
        if k > 0 && m > 0 {
            assert(chars_lt(h[0].0, h[k].0));
            assert(chars_lt(g[0].0, g[m].0));
            lemma_chars_lt_asymmetric(g[0].0, h[0].0);
        }
        assert(g[0].0 == h[0].0);
        let g1 = g.drop_first();
        let h1 = h.drop_first();
        lemma_names_increasing_tail(g);
        lemma_names_increasing_tail(h);
        assert forall|j: int| 0 <= j < g1.len() implies #[trigger] g1[j].1.len() > 0 by {
            assert(g1[j] == g[j + 1]);
        }
        assert forall|j: int| 0 <= j < h1.len() implies #[trigger] h1[j].1.len() > 0 by {
            assert(h1[j] == h[j + 1]);
        }
        assert forall|n: Seq<char>| #[trigger] group_of(g1, n).len() > 0 <==> group_of(h1, n).len()
            > 0 by {
            if n == g[0].0 {
                assert forall|j: int| 0 <= j < g1.len() implies #[trigger] g1[j].0 != n by {
                    lemma_chars_lt_irreflexive(n);
                }
                assert forall|j: int| 0 <= j < h1.len() implies #[trigger] h1[j].0 != n by {
                    lemma_chars_lt_irreflexive(n);
                }
                lemma_group_of_absent(g1, n);
                lemma_group_of_absent(h1, n);
            } else {
                assert(group_of(g, n) == group_of(g1, n));
                assert(group_of(h, n) == group_of(h1, n));
            }
        }
        lemma_group_names_unique(g1, h1);
        assert forall|j: int| 0 <= j < g.len() implies #[trigger] g[j].0 == h[j].0 by {
            if j > 0 {
                assert(g[j] == g1[j - 1]);
                assert(h[j] == h1[j - 1]);
            }
        }
    }
}

/// The groups of `items` are not empty.
proof fn lemma_groups_nonempty(items: Seq<SummaryView>)
    ensures
        forall|j: int| 0 <= j < grouping(items).1.len() ==> #[trigger] grouping(items).1[j].1.len() > 0,
{
    lemma_max_path_len(items);
    lemma_grouping_facts(items, max_path_len(items));
}

proof fn lemma_forest_same(a: Seq<SummaryView>, b: Seq<SummaryView>, d: nat)
    requires
        distinct_paths(a),
        distinct_paths(b),
        forall|y: SummaryView| #![trigger a.contains(y)] #![trigger b.contains(y)] a.contains(y) <==> b.contains(y),
    ensures
        forest(a, d) == forest(b, d),
    decreases d,
{
    lemma_leaves_of(a);
    lemma_leaves_of(b);
    lemma_grouping_ordered(a);
    lemma_grouping_ordered(b);
    let ga = grouping(a);
    let gb = grouping(b);
    assert forall|y: SummaryView| ga.0.contains(y) <==> gb.0.contains(y) by {}
    lemma_sorted_unique(ga.0, gb.0);
    if d > 0 {
        let e = (d - 1) as nat;
        lemma_groups_of(a);
        lemma_groups_of(b);
        lemma_groups_nonempty(a);
        lemma_groups_nonempty(b);
        assert forall|n: Seq<char>, y: SummaryView|
            #[trigger] group_of(ga.1, n).contains(y) <==> group_of(gb.1, n).contains(y) by {
            if grouped_under(a, n, y) {
                let z = choose|z: SummaryView|
                    #[trigger] a.contains(z) && z.path.len() >= 2 && z.path[0] == n && y == tail_of(z);
                assert(b.contains(z));
            }
            if grouped_under(b, n, y) {
                let z = choose|z: SummaryView|
                    #[trigger] b.contains(z) && z.path.len() >= 2 && z.path[0] == n && y == tail_of(z);
                assert(a.contains(z));
            }
        }
        assert forall|n: Seq<char>| #[trigger] group_of(ga.1, n).len() > 0 <==> group_of(gb.1, n).len()
            > 0 by {
            if group_of(ga.1, n).len() > 0 {
                assert(group_of(ga.1, n).contains(group_of(ga.1, n)[0]));
                assert(group_of(gb.1, n).contains(group_of(ga.1, n)[0]));
            }
            if group_of(gb.1, n).len() > 0 {
                assert(group_of(gb.1, n).contains(group_of(gb.1, n)[0]));
                assert(group_of(ga.1, n).contains(group_of(gb.1, n)[0]));
            }
        }
        lemma_group_names_unique(ga.1, gb.1);
        lemma_group_forest_index(ga.1, e);
        lemma_group_forest_index(gb.1, e);
        assert forall|j: int| 0 <= j < ga.1.len() implies #[trigger] group_forest(ga.1, e)[j]
            == group_forest(gb.1, e)[j] by {
            let n = ga.1[j].0;
            lemma_group_of_at(ga.1, j);
            lemma_group_of_at(gb.1, j);
            assert(gb.1[j].0 == n);
            let ma = ga.1[j].1;
            let mb = gb.1[j].1;
            assert(distinct_paths(group_of(ga.1, n)));
            assert(distinct_paths(group_of(gb.1, n)));
            assert forall|y: SummaryView| #![trigger ma.contains(y)] #![trigger mb.contains(y)]
                ma.contains(y) <==> mb.contains(y) by {
                assert(group_of(ga.1, n).contains(y) <==> group_of(gb.1, n).contains(y));
            }
            lemma_forest_same(ma, mb, e);
        }
        assert(group_forest(ga.1, e) =~= group_forest(gb.1, e));
    }
}

/// The longest path is the path of some benchmark, or nothing for none.
proof fn lemma_max_path_len_reached(items: Seq<SummaryView>)
    ensures
        items.len() == 0 ==> max_path_len(items) == 0,
        items.len() > 0 ==> exists|i: int|
            0 <= i < items.len() && #[trigger] items[i].path.len() == max_path_len(items),
    decreases items.len(),
{
    if items.len() > 0 {
        let prev = items.drop_last();
        lemma_max_path_len_reached(prev);
        if items.last().path.len() > max_path_len(prev) || prev.len() == 0 {
            assert(items[items.len() - 1].path.len() == max_path_len(items));
        } else {
            let i = choose|i: int| 0 <= i < prev.len() && #[trigger] prev[i].path.len() == max_path_len(prev);
            assert(items[i] == prev[i]);
            assert(items[i].path.len() == max_path_len(items));
        }
    }
}

proof fn lemma_max_path_len_same(a: Seq<SummaryView>, b: Seq<SummaryView>)
    requires
        forall|y: SummaryView| #![trigger a.contains(y)] #![trigger b.contains(y)] a.contains(y) <==> b.contains(y),
    ensures
        max_path_len(a) == max_path_len(b),
{
    lemma_max_path_len(a);
    lemma_max_path_len(b);
    lemma_max_path_len_reached(a);
    lemma_max_path_len_reached(b);
    if a.len() > 0 {
        let i = choose|i: int| 0 <= i < a.len() && #[trigger] a[i].path.len() == max_path_len(a);
        assert(a.contains(a[i]));
        let k = choose|k: int| 0 <= k < b.len() && b[k] == a[i];
        assert(b[k].path.len() <= max_path_len(b));
    } else if b.len() > 0 {
        assert(b.contains(b[0]));
    }
    if b.len() > 0 {
        let i = choose|i: int| 0 <= i < b.len() && #[trigger] b[i].path.len() == max_path_len(b);
        assert(b.contains(b[i]));
        let k = choose|k: int| 0 <= k < a.len() && a[k] == b[i];
        assert(a[k].path.len() <= max_path_len(a));
    }
}

/// The trees that `BenchmarkTree::from` builds do not depend on the order of
/// the results: when no two results share a path, any reordering of them
/// gives the same trees.
pub proof fn lemma_from_ignores_order(a: Seq<SummaryView>, b: Seq<SummaryView>)
    requires
        distinct_paths(a),
        a.to_multiset() == b.to_multiset(),
    ensures
        forest(a, max_path_len(a)) == forest(b, max_path_len(b)),
{
    broadcast use vstd::seq_lib::to_multiset_contains;

    assert forall|y: SummaryView| #![trigger a.contains(y)] #![trigger b.contains(y)]
        a.contains(y) <==> b.contains(y) by {
        assert(a.contains(y) <==> a.to_multiset().count(y) > 0);
        assert(b.contains(y) <==> b.to_multiset().count(y) > 0);
    }
    assert(a.no_duplicates()) by {
        assert forall|i: int, j: int| 0 <= i < a.len() && 0 <= j < a.len() && i != j implies a[i]
            != a[j] by {
            assert(a[i].path != a[j].path);
        }
    }
    a.lemma_multiset_has_no_duplicates();
    b.lemma_multiset_has_no_duplicates_conv();
    assert forall|i: int, j: int|
        0 <= i < b.len() && 0 <= j < b.len() && i != j implies #[trigger] b[i].path
        != #[trigger] b[j].path by {
        assert(b[i] != b[j]);
        assert(b.contains(b[i]));
        assert(b.contains(b[j]));
        let p = choose|p: int| 0 <= p < a.len() && a[p] == b[i];
        let q = choose|q: int| 0 <= q < a.len() && a[q] == b[j];
        assert(a[p].path != a[q].path);
    }
    lemma_max_path_len_same(a, b);
    lemma_forest_same(a, b, max_path_len(a));
}

} // verus!
