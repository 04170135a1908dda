use vstd::prelude::*;
use crate::order::{chars_lt, path_lt};
use crate::table::{lemma_forest_fits, lemma_grouping_facts};
use crate::tree::{
    forest, group_forest, group_name, grouping, groups_bounded, insert_sorted, leaf_path,
    lemma_group_forest_index, lemma_grouping_ordered, lemma_max_path_len, max_path_len, Groups,
    SummaryView, TreeView,
};

verus! {

/// The trees of one level come in the order the table shows them: every
/// benchmark before every group, the benchmarks sorted by path, the group
/// names strictly increasing, and every benchmark left with at most one
/// path segment.
pub open spec fn level_ordered(f: Seq<TreeView>) -> bool {
    &&& forall|i: int, j: int|
        0 <= i < j < f.len() && #[trigger] f[i] is Group ==> #[trigger] f[j] is Group
    &&& forall|i: int, j: int|
        0 <= i < j < f.len() && #[trigger] f[j] is Benchmark ==> !path_lt(
            leaf_path(f[j]),
            leaf_path(#[trigger] f[i]),
        )
    &&& forall|i: int, j: int|
        0 <= i < j < f.len() && #[trigger] f[i] is Group ==> chars_lt(
            group_name(f[i]),
            group_name(#[trigger] f[j]),
        )
    &&& forall|i: int| 0 <= i < f.len() && #[trigger] f[i] is Benchmark ==> leaf_path(f[i]).len() <= 1
}

/// Every group of `t`, at every depth, has at least one child, and the
/// children of each group are a level in order.
pub open spec fn shaped(t: TreeView) -> bool
    decreases t, 0nat,
{
    match t {
        TreeView::Benchmark(_) => true,
        TreeView::Group(_, cs) => cs.len() > 0 && level_ordered(cs) && all_shaped(cs, cs.len()),
    }
}

/// The first `k` trees of `cs` are shaped.
pub open spec fn all_shaped(cs: Seq<TreeView>, k: nat) -> bool
    decreases cs, k,
{
    if k == 0 || k > cs.len() {
        true
    } else {
        all_shaped(cs, (k - 1) as nat) && shaped(cs[k - 1])
    }
}

proof fn lemma_all_shaped_from(cs: Seq<TreeView>, k: nat)
    requires
        k <= cs.len(),
        forall|i: int| 0 <= i < k ==> shaped(#[trigger] cs[i]),
    ensures
        all_shaped(cs, k),
    decreases k,
{
    if k > 0 {
        lemma_all_shaped_from(cs, (k - 1) as nat);
    }
}

proof fn lemma_insert_sorted_short(s: Seq<SummaryView>, x: SummaryView)
    requires
        forall|i: int| 0 <= i < s.len() ==> #[trigger] s[i].path.len() <= 1,
        x.path.len() <= 1,
    ensures
        forall|k: int|
            0 <= k < insert_sorted(s, x).len() ==> #[trigger] insert_sorted(s, x)[k].path.len() <= 1,
    decreases s.len(),
{
    let r = insert_sorted(s, x);
    if s.len() > 0 && !path_lt(x.path, s[0].path) {
        let t = s.drop_first();
        assert forall|i: int| 0 <= i < t.len() implies #[trigger] t[i].path.len() <= 1 by {
            assert(t[i] == s[i + 1]);
        }
        lemma_insert_sorted_short(t, x);
        assert forall|k: int| 0 <= k < r.len() implies #[trigger] r[k].path.len() <= 1 by {
            if k > 0 {
                assert(r[k] == insert_sorted(t, x)[k - 1]);
            }
        }
    } else if s.len() > 0 {
        assert forall|k: int| 0 <= k < r.len() implies #[trigger] r[k].path.len() <= 1 by {
            if k > 0 {
                assert(r[k] == s[k - 1]);
            }
        }
    }
}

/// The benchmarks that stay at a level have at most one path segment.
proof fn lemma_grouping_short(items: Seq<SummaryView>)
    ensures
        forall|i: int|
            0 <= i < grouping(items).0.len() ==> #[trigger] grouping(items).0[i].path.len() <= 1,
    decreases items.len(),
{
    if items.len() > 0 {
        lemma_grouping_short(items.drop_last());
        let x = items.last();
        if x.path.len() <= 1 {
            lemma_insert_sorted_short(grouping(items.drop_last()).0, x);
        }
    }
}

proof fn lemma_forest_shaped(items: Seq<SummaryView>, d: nat)
    requires
        forall|i: int| 0 <= i < items.len() ==> #[trigger] items[i].path.len() <= d,
    ensures
        level_ordered(forest(items, d)),
        forall|i: int| 0 <= i < forest(items, d).len() ==> shaped(#[trigger] forest(items, d)[i]),
    decreases d, 0nat,
{
    lemma_grouping_facts(items, d);
    lemma_grouping_ordered(items);
    lemma_grouping_short(items);
    let st = grouping(items);
    let n = st.0.len();
    let leaves = st.0.map_values(|r: SummaryView| TreeView::Benchmark(r));
    let f = forest(items, d);
    if d == 0 {
        if st.1.len() > 0 {
            assert(st.1[0].1.len() > 0);
            assert(st.1[0].1[0].path.len() + 1 <= d);
        }
        assert(f =~= leaves);
    } else {
        let gf = group_forest(st.1, (d - 1) as nat);
        lemma_group_forest_index(st.1, (d - 1) as nat);
        lemma_group_forest_shaped(st.1, (d - 1) as nat);
        assert(f =~= leaves + gf);
        assert forall|i: int| n <= i < f.len() implies #[trigger] f[i] == gf[i - n] by {}
    }
    assert forall|i: int| 0 <= i < n implies #[trigger] f[i] == TreeView::Benchmark(st.0[i]) by {
        assert(f[i] == leaves[i]);
    }
    assert forall|i: int| 0 <= i < f.len() implies shaped(#[trigger] f[i]) by {
        if i >= n {
            assert(f[i] == group_forest(st.1, (d - 1) as nat)[i - n]);
        }
    }
    assert forall|i: int, j: int|
        0 <= i < j < f.len() && #[trigger] f[i] is Group implies #[trigger] f[j] is Group by {
        if j < n {
            assert(f[i] == TreeView::Benchmark(st.0[i]));
        } else {
            assert(f[j] == group_forest(st.1, (d - 1) as nat)[j - n]);
        }
    }
    assert forall|i: int, j: int|
        0 <= i < j < f.len() && #[trigger] f[j] is Benchmark implies !path_lt(
        leaf_path(f[j]),
        leaf_path(#[trigger] f[i]),
    ) by {
        if j >= n {
            assert(f[j] == group_forest(st.1, (d - 1) as nat)[j - n]);
        } else {
            assert(f[i] == TreeView::Benchmark(st.0[i]));
            assert(f[j] == TreeView::Benchmark(st.0[j]));
        }
    }
    assert forall|i: int, j: int|
        0 <= i < j < f.len() && #[trigger] f[i] is Group implies chars_lt(
        group_name(f[i]),
        group_name(#[trigger] f[j]),
    ) by {
        if i < n {
            assert(f[i] == TreeView::Benchmark(st.0[i]));
        } else {
            let gf = group_forest(st.1, (d - 1) as nat);
            assert(f[i] == gf[i - n]);
            assert(f[j] == gf[j - n]);
            assert(st.1[i - n].0 == group_name(f[i]));
            assert(st.1[j - n].0 == group_name(f[j]));
        }
    }
    assert forall|i: int| 0 <= i < f.len() && #[trigger] f[i] is Benchmark implies leaf_path(
        f[i],
    ).len() <= 1 by {
        if i >= n {
            assert(f[i] == group_forest(st.1, (d - 1) as nat)[i - n]);
        } else {
            assert(f[i] == TreeView::Benchmark(st.0[i]));
        }
    }
}

proof fn lemma_group_forest_shaped(gs: Groups, d: nat)
    requires
        groups_bounded(gs, d + 1),
    ensures
        forall|i: int| 0 <= i < gs.len() ==> shaped(#[trigger] group_forest(gs, d)[i]),
    decreases d, gs.len(),
{
    lemma_group_forest_index(gs, d);
    assert forall|i: int| 0 <= i < gs.len() implies shaped(#[trigger] group_forest(gs, d)[i]) by {
        let members = gs[i].1;
        assert(members.len() > 0);
        assert forall|k: int| 0 <= k < members.len() implies #[trigger] members[k].path.len()
            <= d by {
            assert(members[k].path.len() + 1 <= d + 1);
        }
        lemma_forest_shaped(members, d);
        lemma_forest_fits(members, d, d as int);
        let children = forest(members, d);
        lemma_all_shaped_from(children, children.len());
    }
}

/// Every level of the trees that `BenchmarkTree::from` builds is in order:
/// the benchmarks, sorted by path and each with at most one path segment
/// left, come before the groups, whose names strictly increase; and every
/// group, at every depth, has at least one child.
pub proof fn lemma_from_well_shaped(items: Seq<SummaryView>)
    ensures
        level_ordered(forest(items, max_path_len(items))),
        forall|i: int|
            0 <= i < forest(items, max_path_len(items)).len() ==> shaped(
                #[trigger] forest(items, max_path_len(items))[i],
            ),
{
    lemma_max_path_len(items);
    lemma_forest_shaped(items, max_path_len(items));
}

} // verus!
