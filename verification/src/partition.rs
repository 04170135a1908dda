use vstd::prelude::*;
use vstd::multiset::Multiset;
use crate::tree::{
    forest, group_forest, group_insert, grouping, groups_bounded, insert_sorted, tail_of, Groups,
    SummaryView, TreeView,
};

verus! {

broadcast use vstd::multiset::group_multiset_axioms;

/// `x` with `prefix` put back in front of its path.
pub open spec fn restore(x: SummaryView, prefix: Seq<Seq<char>>) -> SummaryView {
    SummaryView { path: prefix + x.path, ..x }
}

/// The benchmarks `items`, each with `prefix` in front of its path.
pub open spec fn restored(items: Seq<SummaryView>, prefix: Seq<Seq<char>>) -> Multiset<SummaryView>
    decreases items.len(),
{
    if items.len() == 0 {
        Multiset::empty()
    } else {
        restored(items.drop_first(), prefix).insert(restore(items[0], prefix))
    }
}

/// The members of the groups `g`, each with `prefix` and its group's name in
/// front of its path.
pub open spec fn groups_restored(g: Groups, prefix: Seq<Seq<char>>) -> Multiset<SummaryView>
    decreases g.len(),
{
    if g.len() == 0 {
        Multiset::empty()
    } else {
        restored(g[0].1, prefix.push(g[0].0)).add(groups_restored(g.drop_first(), prefix))
    }
}

/// The benchmarks of the tree `t`, each with its whole path: `prefix`, the
/// names of the groups above it, then what is left of its path.
pub open spec fn tree_leaves(t: TreeView, prefix: Seq<Seq<char>>) -> Multiset<SummaryView>
    decreases t, 0nat,
{
    match t {
        TreeView::Benchmark(r) => Multiset::singleton(restore(r, prefix)),
        TreeView::Group(name, cs) => forest_leaves(cs, cs.len(), prefix.push(name)),
    }
}

/// The benchmarks of the first `k` trees of `ts`, each with its whole path.
pub open spec fn forest_leaves(ts: Seq<TreeView>, k: nat, prefix: Seq<Seq<char>>) -> Multiset<
    SummaryView,
>
    decreases ts, k,
{
    if k == 0 || k > ts.len() {
        Multiset::empty()
    } else {
        forest_leaves(ts, (k - 1) as nat, prefix).add(tree_leaves(ts[k - 1], prefix))
    }
}

proof fn lemma_restored_push(s: Seq<SummaryView>, x: SummaryView, p: Seq<Seq<char>>)
    ensures
        restored(s.push(x), p) =~= restored(s, p).insert(restore(x, p)),
    decreases s.len(),
{
    if s.len() == 0 {
        assert(s.push(x).drop_first() =~= s);
    } else {
        assert(s.push(x).drop_first() =~= s.drop_first().push(x));
        lemma_restored_push(s.drop_first(), x, p);
    }
}

proof fn lemma_insert_sorted_restored(s: Seq<SummaryView>, x: SummaryView, p: Seq<Seq<char>>)
    ensures
        restored(insert_sorted(s, x), p) =~= restored(s, p).insert(restore(x, p)),
    decreases s.len(),
{
    let r = insert_sorted(s, x);
    if s.len() == 0 {
        assert(r.drop_first() =~= s);
    } else if crate::order::path_lt(x.path, s[0].path) {
        assert(r.drop_first() =~= s);
    } else {
        assert(r.drop_first() =~= insert_sorted(s.drop_first(), x));
        lemma_insert_sorted_restored(s.drop_first(), x, p);
    }
}

proof fn lemma_group_insert_restored(g: Groups, key: Seq<char>, y: SummaryView, p: Seq<Seq<char>>)
    ensures
        groups_restored(group_insert(g, key, y), p) =~= groups_restored(g, p).insert(
            restore(y, p.push(key)),
        ),
    decreases g.len(),
{
    let r = group_insert(g, key, y);
    let q = p.push(key);
    let single: Seq<SummaryView> = seq![y];
    assert(single.drop_first() =~= Seq::<SummaryView>::empty());
    assert(restored(Seq::<SummaryView>::empty(), q) == Multiset::<SummaryView>::empty());
    assert(restored(single, q) =~= Multiset::<SummaryView>::empty().insert(restore(y, q)));
    if g.len() == 0 {
        assert(r[0] == (key, single));
        assert(r.drop_first() =~= g);
    } else if g[0].0 == key {
        assert(r[0] == (key, g[0].1.push(y)));
        assert(r.drop_first() =~= g.drop_first());
        lemma_restored_push(g[0].1, y, q);
    } else if crate::order::chars_lt(key, g[0].0) {
        assert(r[0] == (key, single));
        assert(r.drop_first() =~= g);
    } else {
        assert(r[0] == g[0]);
        assert(r.drop_first() =~= group_insert(g.drop_first(), key, y));
        lemma_group_insert_restored(g.drop_first(), key, y, p);
    }
}

/// Grouping loses no benchmark and adds none: the short paths and the group
/// members, with their group names put back, are the benchmarks given.
pub proof fn lemma_grouping_restored(items: Seq<SummaryView>, p: Seq<Seq<char>>)
    ensures
        restored(items, p) =~= restored(grouping(items).0, p).add(groups_restored(grouping(items).1, p)),
    decreases items.len(),
{
    if items.len() > 0 {
        let prev = items.drop_last();
        let x = items.last();
        lemma_grouping_restored(prev, p);
        assert(items =~= prev.push(x));
        lemma_restored_push(prev, x, p);
        let st = grouping(prev);
        if x.path.len() <= 1 {
            lemma_insert_sorted_restored(st.0, x, p);
        } else {
            lemma_group_insert_restored(st.1, x.path[0], tail_of(x), p);
            assert(p.push(x.path[0]) + x.path.drop_first() =~= p + x.path);
            assert(restore(tail_of(x), p.push(x.path[0])) == restore(x, p));
        }
    }
}

proof fn lemma_forest_leaves_prefix(a: Seq<TreeView>, b: Seq<TreeView>, k: nat, p: Seq<Seq<char>>)
    requires
        k <= a.len(),
    ensures
        forest_leaves(a + b, k, p) == forest_leaves(a, k, p),
    decreases k,
{
    if k > 0 {
        lemma_forest_leaves_prefix(a, b, (k - 1) as nat, p);
        assert((a + b)[k - 1] == a[k - 1]);
    }
}

proof fn lemma_forest_leaves_concat(a: Seq<TreeView>, b: Seq<TreeView>, m: nat, p: Seq<Seq<char>>)
    requires
        m <= b.len(),
    ensures
        forest_leaves(a + b, a.len() + m, p) =~= forest_leaves(a, a.len(), p).add(
            forest_leaves(b, m, p),
        ),
    decreases m,
{
    if m == 0 {
        lemma_forest_leaves_prefix(a, b, a.len(), p);
    } else {
        lemma_forest_leaves_concat(a, b, (m - 1) as nat, p);
        assert((a + b)[a.len() + m - 1] == b[m - 1]);
    }
}

proof fn lemma_leaves_restored(s: Seq<SummaryView>, k: nat, p: Seq<Seq<char>>)
    requires
        k <= s.len(),
    ensures
        forest_leaves(s.map_values(|r: SummaryView| TreeView::Benchmark(r)), k, p) =~= restored(
            s.take(k as int),
            p,
        ),
    decreases k,
{
    if k == 0 {
        assert(s.take(0) =~= Seq::<SummaryView>::empty());
    } else {
        lemma_leaves_restored(s, (k - 1) as nat, p);
        let m = s.map_values(|r: SummaryView| TreeView::Benchmark(r));
        assert(m.len() == s.len());
        assert(m[k - 1] == TreeView::Benchmark(s[k - 1]));
        assert(tree_leaves(m[k - 1], p) == Multiset::singleton(restore(s[k - 1], p)));
        assert(forest_leaves(m, k, p) == forest_leaves(m, (k - 1) as nat, p).add(
            tree_leaves(m[k - 1], p),
        ));
        assert(s.take(k as int) =~= s.take(k - 1).push(s[k - 1]));
        lemma_restored_push(s.take(k - 1), s[k - 1], p);
    }
}

proof fn lemma_groups_restored_push(g: Groups, e: (Seq<char>, Seq<SummaryView>), p: Seq<Seq<char>>)
    ensures
        groups_restored(g.push(e), p) =~= groups_restored(g, p).add(restored(e.1, p.push(e.0))),
    decreases g.len(),
{
    if g.len() == 0 {
        assert(g.push(e).drop_first() =~= g);
    } else {
        assert(g.push(e).drop_first() =~= g.drop_first().push(e));
        lemma_groups_restored_push(g.drop_first(), e, p);
    }
}

/// Every benchmark given to the grouping appears exactly once among the
/// leaves of the trees, under its whole path.
pub proof fn lemma_forest_leaves(items: Seq<SummaryView>, d: nat, p: Seq<Seq<char>>)
    requires
        forall|i: int| 0 <= i < items.len() ==> #[trigger] items[i].path.len() <= d,
    ensures
        forest_leaves(forest(items, d), forest(items, d).len(), p) =~= restored(items, p),
    decreases d, 0nat, 0nat,
{
    let st = grouping(items);
    let leaves = st.0.map_values(|r: SummaryView| TreeView::Benchmark(r));
    let f = forest(items, d);
    lemma_grouping_restored(items, p);
    crate::table::lemma_grouping_facts(items, d);
    lemma_leaves_restored(st.0, st.0.len(), p);
    assert(st.0.take(st.0.len() as int) =~= st.0);
    if d == 0 {
        if st.1.len() > 0 {
            assert(st.1[0].1.len() > 0);
            assert(st.1[0].1[0].path.len() + 1 <= d);
        }
        assert(f =~= leaves + Seq::<TreeView>::empty());
        lemma_forest_leaves_concat(leaves, Seq::empty(), 0, p);
    } else {
        let gf = group_forest(st.1, (d - 1) as nat);
        lemma_group_forest_leaves(st.1, (d - 1) as nat, st.1.len(), p);
        assert(st.1.take(st.1.len() as int) =~= st.1);
        assert(f =~= leaves + gf);
        crate::tree::lemma_group_forest_index(st.1, (d - 1) as nat);
        lemma_forest_leaves_concat(leaves, gf, gf.len(), p);
    }
}

proof fn lemma_group_forest_leaves(gs: Groups, d: nat, k: nat, p: Seq<Seq<char>>)
    requires
        groups_bounded(gs, d + 1),
        k <= gs.len(),
    ensures
        forest_leaves(group_forest(gs, d), k, p) =~= groups_restored(gs.take(k as int), p),
    decreases d, gs.len(), k,
{
    crate::tree::lemma_group_forest_index(gs, d);
    if k == 0 {
        assert(gs.take(0) =~= Seq::<(Seq<char>, Seq<SummaryView>)>::empty());
    } else {
        lemma_group_forest_leaves(gs, d, (k - 1) as nat, p);
        let e = gs[k - 1];
        assert(gs.take(k as int) =~= gs.take(k - 1).push(e));
        lemma_groups_restored_push(gs.take(k - 1), e, p);
        let gf = group_forest(gs, d);
        assert(gf[k - 1] == TreeView::Group(e.0, forest(e.1, d)));
        assert(forest_leaves(gf, k, p) == forest_leaves(gf, (k - 1) as nat, p).add(
            tree_leaves(gf[k - 1], p),
        ));
        assert(tree_leaves(gf[k - 1], p) == forest_leaves(
            forest(e.1, d),
            forest(e.1, d).len(),
            p.push(e.0),
        ));
        assert forall|i: int| 0 <= i < e.1.len() implies #[trigger] e.1[i].path.len() <= d by {
            assert(e.1[i].path.len() + 1 <= d + 1);
        }
        lemma_forest_leaves(e.1, d, p.push(e.0));
    }
}


proof fn lemma_restored_top(items: Seq<SummaryView>)
    ensures
        restored(items, Seq::empty()) =~= items.to_multiset(),
    decreases items.len(),
{
    items.to_multiset_ensures();
    if items.len() == 0 {
        vstd::multiset::lemma_multiset_empty_len(items.to_multiset());
    } else {
        let prev = items.drop_last();
        let x = items.last();
        lemma_restored_top(prev);
        assert(items =~= prev.push(x));
        lemma_restored_push(prev, x, Seq::empty());
        prev.to_multiset_ensures();
        assert(items.to_multiset() == prev.push(x).to_multiset());
        assert(Seq::<Seq<char>>::empty() + x.path =~= x.path);
        assert(restore(x, Seq::empty()) == x);
    }
}

/// Grouping benchmarks into trees loses none and adds none: the leaves of
/// the trees, each under its whole path (the names of the groups above it,
/// then what is left of its own path), are exactly the benchmarks given.
pub proof fn lemma_from_keeps_every_benchmark(items: Seq<SummaryView>)
    ensures
        ({
            let f = forest(items, crate::tree::max_path_len(items));
            forest_leaves(f, f.len(), Seq::empty()) == items.to_multiset()
        }),
{
    crate::tree::lemma_max_path_len(items);
    lemma_forest_leaves(items, crate::tree::max_path_len(items), Seq::empty());
    lemma_restored_top(items);
}

} // verus!
