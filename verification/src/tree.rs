use vstd::prelude::*;
use crate::names::strings_view;
use crate::order::{
    chars_lt, lemma_chars_lt_total, lemma_chars_lt_transitive, lemma_path_lt_irreflexive,
    lemma_path_lt_transitive, path_less, path_lt, str_lt,
};

verus! {

/// How a benchmark compares with its previous run, as the table shows it:
/// the change text (such as `+1.25%`) and whether it is significant and in
/// which direction.
pub enum ChangeSummary {
    /// No previous run.
    NoBaseline,
    /// A change that is not significant.
    Insignificant(String),
    /// A significant slowdown.
    Slower(String),
    /// A significant speedup.
    Faster(String),
}

/// The abstract value of a [`ChangeSummary`].
pub enum ChangeView {
    NoBaseline,
    Insignificant(Seq<char>),
    Slower(Seq<char>),
    Faster(Seq<char>),
}

impl View for ChangeSummary {
    type V = ChangeView;

    open spec fn view(&self) -> ChangeView {
        match self {
            ChangeSummary::NoBaseline => ChangeView::NoBaseline,
            ChangeSummary::Insignificant(t) => ChangeView::Insignificant(t@),
            ChangeSummary::Slower(t) => ChangeView::Slower(t@),
            ChangeSummary::Faster(t) => ChangeView::Faster(t@),
        }
    }
}

/// What the results table shows of one benchmark: its path, the lower
/// bound, mean and upper bound of its time as text, its change and its
/// total iterations.
pub struct BenchmarkSummary {
    pub path: Vec<String>,
    pub lower: String,
    pub mean: String,
    pub upper: String,
    pub change: ChangeSummary,
    pub iters: u64,
}

/// The abstract value of a [`BenchmarkSummary`].
pub struct SummaryView {
    pub path: Seq<Seq<char>>,
    pub lower: Seq<char>,
    pub mean: Seq<char>,
    pub upper: Seq<char>,
    pub change: ChangeView,
    pub iters: u64,
}

impl View for BenchmarkSummary {
    type V = SummaryView;

    open spec fn view(&self) -> SummaryView {
        SummaryView {
            path: strings_view(self.path@),
            lower: self.lower@,
            mean: self.mean@,
            upper: self.upper@,
            change: self.change@,
            iters: self.iters,
        }
    }
}

/// The abstract values of `s`.
pub open spec fn summaries_view(s: Seq<BenchmarkSummary>) -> Seq<SummaryView> {
    s.map_values(|r: BenchmarkSummary| r@)
}

/// Benchmarks grouped by the segments of their paths.
pub enum BenchmarkTree {
    /// A benchmark, with what is left of its path.
    Benchmark(BenchmarkSummary),
    /// The benchmarks whose paths go on from the segment `name`.
    Group(String, Vec<BenchmarkTree>),
}

/// The abstract value of a [`BenchmarkTree`].
pub enum TreeView {
    Benchmark(SummaryView),
    Group(Seq<char>, Seq<TreeView>),
}

/// The abstract value of a tree.
pub open spec fn tree_view(t: BenchmarkTree) -> TreeView
    decreases t,
{
    match t {
        BenchmarkTree::Benchmark(r) => TreeView::Benchmark(r@),
        BenchmarkTree::Group(name, children) => TreeView::Group(name@, forest_view(children@)),
    }
}

/// The abstract values of a sequence of trees.
pub open spec fn forest_view(ts: Seq<BenchmarkTree>) -> Seq<TreeView>
    decreases ts,
{
    if ts.len() == 0 {
        Seq::empty()
    } else {
        forest_view(ts.drop_last()).push(tree_view(ts.last()))
    }
}


/// `s` with `x` placed before the first entry whose path comes after the
/// path of `x` (a stable insertion by path).
pub open spec fn insert_sorted(s: Seq<SummaryView>, x: SummaryView) -> Seq<SummaryView>
    decreases s.len(),
{
    if s.len() == 0 {
        seq![x]
    } else if path_lt(x.path, s[0].path) {
        seq![x] + s
    } else {
        seq![s[0]] + insert_sorted(s.drop_first(), x)
    }
}

/// Named groups of benchmarks.
pub type Groups = Seq<(Seq<char>, Seq<SummaryView>)>;

/// `g` with `x` added at the end of the group `key`; a missing group is
/// created before the first group whose name comes after `key`.
pub open spec fn group_insert(g: Groups, key: Seq<char>, x: SummaryView) -> Groups
    decreases g.len(),
{
    if g.len() == 0 {
        seq![(key, seq![x])]
    } else if g[0].0 == key {
        seq![(key, g[0].1.push(x))] + g.drop_first()
    } else if chars_lt(key, g[0].0) {
        seq![(key, seq![x])] + g
    } else {
        seq![g[0]] + group_insert(g.drop_first(), key, x)
    }
}

/// `x` without the first segment of its path.
pub open spec fn tail_of(x: SummaryView) -> SummaryView {
    SummaryView { path: x.path.drop_first(), ..x }
}

/// The benchmarks of `items` with at most one path segment, sorted by path,
/// and the others grouped by their first segment (which each group's
/// members lose), the groups sorted by name, each keeping the order of
/// `items`.
pub open spec fn grouping(items: Seq<SummaryView>) -> (Seq<SummaryView>, Groups)
    decreases items.len(),
{
    if items.len() == 0 {
        (Seq::empty(), Seq::empty())
    } else {
        let st = grouping(items.drop_last());
        let x = items.last();
        if x.path.len() <= 1 {
            (insert_sorted(st.0, x), st.1)
        } else {
            (st.0, group_insert(st.1, x.path[0], tail_of(x)))
        }
    }
}

/// The trees of `items`, grouping at most `d` levels deep: first the
/// benchmarks with at most one path segment, sorted by path, then one group
/// per first segment, sorted by name, holding the trees of its members.
pub open spec fn forest(items: Seq<SummaryView>, d: nat) -> Seq<TreeView>
    decreases d, 0int,
{
    let st = grouping(items);
    st.0.map_values(|r: SummaryView| TreeView::Benchmark(r)) + if d == 0 {
        Seq::empty()
    } else {
        group_forest(st.1, (d - 1) as nat)
    }
}

/// One group tree per entry of `gs`, with the trees of its members.
pub open spec fn group_forest(gs: Groups, d: nat) -> Seq<TreeView>
    decreases d, gs.len(),
{
    if gs.len() == 0 {
        Seq::empty()
    } else {
        group_forest(gs.drop_last(), d).push(TreeView::Group(gs.last().0, forest(gs.last().1, d)))
    }
}

/// The longest path among `items`.
pub open spec fn max_path_len(items: Seq<SummaryView>) -> nat
    decreases items.len(),
{
    if items.len() == 0 {
        0
    } else {
        let m = max_path_len(items.drop_last());
        if items.last().path.len() > m {
            items.last().path.len()
        } else {
            m
        }
    }
}

pub(crate) proof fn lemma_max_path_len(items: Seq<SummaryView>)
    ensures
        forall|i: int| 0 <= i < items.len() ==> #[trigger] items[i].path.len() <= max_path_len(items),
    decreases items.len(),
{
    if items.len() > 0 {
        lemma_max_path_len(items.drop_last());
        assert forall|i: int| 0 <= i < items.len() implies #[trigger] items[i].path.len()
            <= max_path_len(items) by {
            if i < items.len() - 1 {
                assert(items.drop_last()[i] == items[i]);
            }
        }
    }
}

proof fn lemma_insert_sorted_at(s: Seq<SummaryView>, x: SummaryView, p: int)
    requires
        0 <= p <= s.len(),
        forall|j: int| 0 <= j < p ==> !path_lt(x.path, #[trigger] s[j].path),
        p == s.len() || path_lt(x.path, s[p].path),
    ensures
        insert_sorted(s, x) == s.insert(p, x),
    decreases s.len(),
{
    if s.len() == 0 {
        assert(s.insert(p, x) =~= seq![x]);
    } else if p == 0 {
        assert(s.insert(p, x) =~= seq![x] + s);
    } else {
        let t = s.drop_first();
        assert forall|j: int| 0 <= j < p - 1 implies !path_lt(x.path, #[trigger] t[j].path) by {
            assert(t[j] == s[j + 1]);
        }
        lemma_insert_sorted_at(t, x, p - 1);
        assert(s.insert(p, x) =~= seq![s[0]] + t.insert(p - 1, x));
    }
}

/// The abstract values of named groups of benchmarks.
pub open spec fn groups_view(g: Seq<(String, Vec<BenchmarkSummary>)>) -> Groups {
    g.map_values(|e: (String, Vec<BenchmarkSummary>)| (e.0@, summaries_view(e.1@)))
}

proof fn lemma_group_insert_at(g: Groups, key: Seq<char>, x: SummaryView, p: int)
    requires
        0 <= p <= g.len(),
        forall|j: int|
            0 <= j < p ==> #[trigger] g[j].0 != key && !chars_lt(key, g[j].0),
        p == g.len() || g[p].0 == key || chars_lt(key, g[p].0),
    ensures
        group_insert(g, key, x) == if p < g.len() && g[p].0 == key {
            g.update(p, (key, g[p].1.push(x)))
        } else {
            g.insert(p, (key, seq![x]))
        },
    decreases g.len(),
{
    if g.len() == 0 {
        assert(g.insert(p, (key, seq![x])) =~= seq![(key, seq![x])]);
    } else if p == 0 {
        if g[0].0 == key {
            assert(g.update(0, (key, g[0].1.push(x))) =~= seq![(key, g[0].1.push(x))]
                + g.drop_first());
        } else {
            assert(g.insert(0, (key, seq![x])) =~= seq![(key, seq![x])] + g);
        }
    } else {
        let t = g.drop_first();
        assert forall|j: int| 0 <= j < p - 1 implies #[trigger] t[j].0 != key && !chars_lt(
            key,
            t[j].0,
        ) by {
            assert(t[j] == g[j + 1]);
        }
        assert(g[0].0 != key && !chars_lt(key, g[0].0));
        lemma_group_insert_at(t, key, x, p - 1);
        if p < g.len() && g[p].0 == key {
            assert(g.update(p, (key, g[p].1.push(x))) =~= seq![g[0]] + t.update(
                p - 1,
                (key, t[p - 1].1.push(x)),
            ));
        } else {
            assert(g.insert(p, (key, seq![x])) =~= seq![g[0]] + t.insert(p - 1, (key, seq![x])));
        }
    }
}

/// Every group has members, and every member's path is shorter than `d`.
pub open spec fn groups_bounded(g: Groups, d: nat) -> bool {
    forall|j: int|
        0 <= j < g.len() ==> {
            &&& #[trigger] g[j].1.len() > 0
            &&& forall|k: int| 0 <= k < g[j].1.len() ==> #[trigger] g[j].1[k].path.len() + 1 <= d
        }
}

pub(crate) proof fn lemma_group_insert_bounded(g: Groups, key: Seq<char>, x: SummaryView, d: nat)
    requires
        groups_bounded(g, d),
        x.path.len() + 1 <= d,
    ensures
        groups_bounded(group_insert(g, key, x), d),
    decreases g.len(),
{
    let r = group_insert(g, key, x);
    if g.len() == 0 {
    } else if g[0].0 == key {
        assert forall|j: int| 0 <= j < r.len() implies {
            &&& #[trigger] r[j].1.len() > 0
            &&& forall|k: int| 0 <= k < r[j].1.len() ==> #[trigger] r[j].1[k].path.len() + 1 <= d
        } by {
            if j == 0 {
                assert(r[0].1 == g[0].1.push(x));
                assert forall|k: int| 0 <= k < r[j].1.len() implies #[trigger] r[j].1[k].path.len()
                    + 1 <= d by {
                    if k < g[0].1.len() {
                        assert(r[0].1[k] == g[0].1[k]);
                    }
                }
            } else {
                assert(r[j] == g[j]);
            }
        }
    } else if chars_lt(key, g[0].0) {
        assert forall|j: int| 0 <= j < r.len() implies {
            &&& #[trigger] r[j].1.len() > 0
            &&& forall|k: int| 0 <= k < r[j].1.len() ==> #[trigger] r[j].1[k].path.len() + 1 <= d
        } by {
            if j > 0 {
                assert(r[j] == g[j - 1]);
            }
        }
    } else {
        let t = g.drop_first();
        assert forall|j: int| 0 <= j < t.len() implies {
            &&& #[trigger] t[j].1.len() > 0
            &&& forall|k: int| 0 <= k < t[j].1.len() ==> #[trigger] t[j].1[k].path.len() + 1 <= d
        } by {
            assert(t[j] == g[j + 1]);
        }
        lemma_group_insert_bounded(t, key, x, d);
        let rt = group_insert(t, key, x);
        assert forall|j: int| 0 <= j < r.len() implies {
            &&& #[trigger] r[j].1.len() > 0
            &&& forall|k: int| 0 <= k < r[j].1.len() ==> #[trigger] r[j].1[k].path.len() + 1 <= d
        } by {
            if j > 0 {
                assert(r[j] == rt[j - 1]);
            }
        }
    }
}

/// Inserts `x` into `v`, sorted by path, after the entries whose paths do
/// not come after its own.
fn insert_by_path(v: &mut Vec<BenchmarkSummary>, x: BenchmarkSummary)
    ensures
        summaries_view(final(v)@) == insert_sorted(summaries_view(old(v)@), x@),
{
    let ghost s = summaries_view(v@);
    let mut p: usize = 0;
    while p < v.len() && !path_less(&x.path, &v[p].path)
        invariant
            p <= v.len(),
            s == summaries_view(v@),
            forall|j: int| 0 <= j < p ==> !path_lt(x@.path, #[trigger] s[j].path),
        decreases v.len() - p,
    {
        p = p + 1;
    }
    proof {
        lemma_insert_sorted_at(s, x@, p as int);
    }
    v.insert(p, x);
    assert(summaries_view(v@) =~= s.insert(p as int, x@));
}

/// Adds `x` to the group `key` of `g`, creating the group at its place by
/// name when it is missing.
///
/// The groups live in a vector kept sorted by name, which is what a
/// `BTreeMap<String, Vec<_>>` would give when walked. The map itself is not
/// used: vstd specifies `BTreeMap` only for keys whose order it models, and
/// it models no order of `String`, so with such a map Verus proves nothing
/// of its contents (not even its length after one insert), let alone the
/// order in which it hands the groups out.
fn add_to_group(g: &mut Vec<(String, Vec<BenchmarkSummary>)>, key: String, x: BenchmarkSummary)
    ensures
        groups_view(final(g)@) == group_insert(groups_view(old(g)@), key@, x@),
{
    let ghost s = groups_view(g@);
    let mut p: usize = 0;
    while p < g.len() && !g[p].0.eq(&key) && !str_lt(key.as_str(), g[p].0.as_str())
        invariant
            p <= g.len(),
            s == groups_view(g@),
            forall|j: int| 0 <= j < p ==> #[trigger] s[j].0 != key@ && !chars_lt(key@, s[j].0),
        decreases g.len() - p,
    {
        p = p + 1;
    }
    proof {
        lemma_group_insert_at(s, key@, x@, p as int);
    }
    if p < g.len() && g[p].0.eq(&key) {
        let (name, mut members) = g.remove(p);
        let ghost before = members@;
        members.push(x);
        assert(summaries_view(members@) =~= summaries_view(before).push(x@));
        g.insert(p, (name, members));
        assert(groups_view(g@) =~= s.update(p as int, (key@, s[p as int].1.push(x@))));
    } else {
        let mut members: Vec<BenchmarkSummary> = Vec::new();
        members.push(x);
        assert(summaries_view(members@) =~= seq![x@]);
        g.insert(p, (key, members));
        assert(groups_view(g@) =~= s.insert(p as int, (key@, seq![x@])));
    }
}


fn forest_from(results: Vec<BenchmarkSummary>, Ghost(d): Ghost<nat>) -> (trees: Vec<BenchmarkTree>)
    requires
        forall|i: int| 0 <= i < results@.len() ==> #[trigger] results@[i].path@.len() <= d,
    ensures
        forest_view(trees@) == forest(summaries_view(results@), d),
    decreases d,
{
    let ghost items = summaries_view(results@);
    let mut rest = results;
    let mut leftover: Vec<BenchmarkSummary> = Vec::new();
    let mut groups: Vec<(String, Vec<BenchmarkSummary>)> = Vec::new();
    let ghost mut i: int = 0;
    proof {
        assert(items.skip(0) =~= items);
        assert(items.take(0) =~= Seq::<SummaryView>::empty());
    }
    while rest.len() > 0
        invariant
            0 <= i <= items.len(),
            items == summaries_view(results@),
            summaries_view(rest@) == items.skip(i),
            (summaries_view(leftover@), groups_view(groups@)) == grouping(items.take(i)),
            groups_bounded(groups_view(groups@), d),
            forall|k: int| 0 <= k < items.len() ==> #[trigger] items[k].path.len() <= d,
        decreases rest.len(),
    {
        let r = rest.remove(0);
        proof {
            assert(items.skip(i)[0] == r@);
            assert(items.skip(i).drop_first() =~= items.skip(i + 1));
            assert(items.take(i + 1).drop_last() =~= items.take(i));
            assert(items.take(i + 1).last() == r@);
            assert(items[i] == r@);
        }
        if r.path.len() <= 1 {
            insert_by_path(&mut leftover, r);
        } else {
            let mut r = r;
            let ghost whole = r@;
            let key = r.path.remove(0);
            assert(r@ == tail_of(whole)) by {
                assert(strings_view(r.path@) =~= whole.path.drop_first());
            }
            proof {
                lemma_group_insert_bounded(groups_view(groups@), key@, r@, d);
            }
            add_to_group(&mut groups, key, r);
        }
        proof {
            i = i + 1;
        }
        assert(summaries_view(rest@) =~= items.skip(i));
    }
    assert(items.take(i) =~= items);
    let ghost st = grouping(items);
    let mut trees: Vec<BenchmarkTree> = Vec::new();
    let ghost mut j: int = 0;
    let ghost leaves = st.0.map_values(|r: SummaryView| TreeView::Benchmark(r));
    proof {
        assert(st.0.skip(0) =~= st.0);
        assert(forest_view(trees@) =~= leaves.take(0));
    }
    while leftover.len() > 0
        invariant
            0 <= j <= st.0.len(),
            leaves == st.0.map_values(|r: SummaryView| TreeView::Benchmark(r)),
            summaries_view(leftover@) == st.0.skip(j),
            forest_view(trees@) == leaves.take(j),
        decreases leftover.len(),
    {
        let r = leftover.remove(0);
        let ghost before = trees@;
        let ghost rv = r@;
        trees.push(BenchmarkTree::Benchmark(r));
        proof {
            assert(st.0.skip(j)[0] == rv);
            assert(tree_view(trees@.last()) == TreeView::Benchmark(rv));
            assert(forest_view(trees@) == forest_view(trees@.drop_last()).push(
                tree_view(trees@.last()),
            ));
            assert(st.0.skip(j).drop_first() =~= st.0.skip(j + 1));
            assert(trees@.drop_last() =~= before);
            assert(leaves.take(j + 1) =~= leaves.take(j).push(TreeView::Benchmark(rv)));
            j = j + 1;
        }
        assert(summaries_view(leftover@) =~= st.0.skip(j));
    }
    assert(leaves.take(j) =~= leaves);
    let ghost gs = st.1;
    let ghost mut k: int = 0;
    proof {
        assert(gs.skip(0) =~= gs);
        assert(gs.take(0) =~= Seq::<(Seq<char>, Seq<SummaryView>)>::empty());
        if d == 0 && gs.len() > 0 {
            assert(gs[0].1.len() > 0);
            assert(gs[0].1[0].path.len() + 1 <= d);
        }
    }
    while groups.len() > 0
        invariant
            0 <= k <= gs.len(),
            gs == st.1,
            groups_view(groups@) == gs.skip(k),
            groups_bounded(gs, d),
            d == 0 ==> gs.len() == 0,
            forest_view(trees@) == leaves + group_forest(gs.take(k), (d - 1) as nat),
        decreases groups.len(),
    {
        assert(gs.skip(k).len() > 0);
        let (name, members) = groups.remove(0);
        let ghost entry = (name@, summaries_view(members@));
        proof {
            assert(gs.skip(k)[0] == entry);
            assert(gs[k] == gs.skip(k)[0]);
            assert(gs[k].1.len() > 0);
            assert forall|m: int| 0 <= m < members@.len() implies #[trigger] members@[m].path@.len()
                <= (d - 1) as nat by {
                assert(gs[k].1[m] == members@[m]@);
                assert(gs[k].1[m].path.len() + 1 <= d);
                assert(members@[m]@.path.len() == members@[m].path@.len());
            }
        }
        let children = forest_from(members, Ghost((d - 1) as nat));
        let ghost before = trees@;
        let ghost cv = forest_view(children@);
        let ghost nv = name@;
        trees.push(BenchmarkTree::Group(name, children));
        proof {
            assert(tree_view(trees@.last()) == TreeView::Group(nv, cv));
            assert(forest_view(trees@) == forest_view(trees@.drop_last()).push(
                tree_view(trees@.last()),
            ));
            let gf = group_forest(gs.take(k), (d - 1) as nat);
            assert(group_forest(gs.take(k + 1), (d - 1) as nat) == group_forest(
                gs.take(k + 1).drop_last(),
                (d - 1) as nat,
            ).push(TreeView::Group(gs.take(k + 1).last().0, forest(gs.take(k + 1).last().1, (d - 1) as nat))));
            assert((leaves + gf).push(TreeView::Group(nv, cv)) =~= leaves + gf.push(TreeView::Group(nv, cv)));
            assert(gs.skip(k).drop_first() =~= gs.skip(k + 1));
            assert(trees@.drop_last() =~= before);
            assert(gs.take(k + 1).drop_last() =~= gs.take(k));
            assert(gs.take(k + 1).last() == gs[k]);
            k = k + 1;
        }
        assert(groups_view(groups@) =~= gs.skip(k));
    }
    assert(gs.take(k) =~= gs);
    trees
}

impl BenchmarkTree {
    /// Groups benchmarks by their paths: those with at most one segment come
    /// first, sorted by path, then one group per first segment, sorted by
    /// name, holding the trees of its members' remaining paths.
    pub fn from(results: Vec<BenchmarkSummary>) -> (trees: Vec<BenchmarkTree>)
        ensures
            forest_view(trees@) == forest(
                summaries_view(results@),
                max_path_len(summaries_view(results@)),
            ),
    {
        let ghost items = summaries_view(results@);
        proof {
            lemma_max_path_len(items);
            assert forall|i: int| 0 <= i < results@.len() implies #[trigger] results@[i].path@.len()
                <= max_path_len(items) by {
                assert(items[i] == results@[i]@);
                assert(items[i].path.len() == results@[i].path@.len());
            }
        }
        forest_from(results, Ghost(max_path_len(items)))
    }
}


/// No entry of `s` has a path that comes before the path of an earlier one.
pub open spec fn sorted_by_path(s: Seq<SummaryView>) -> bool {
    forall|i: int, j: int| 0 <= i < j < s.len() ==> !path_lt(#[trigger] s[j].path, #[trigger] s[i].path)
}

/// The names of the groups `g` strictly increase.
pub open spec fn names_increasing(g: Groups) -> bool {
    forall|i: int, j: int| 0 <= i < j < g.len() ==> chars_lt(#[trigger] g[i].0, #[trigger] g[j].0)
}

proof fn lemma_insert_sorted_lower(s: Seq<SummaryView>, x: SummaryView, b: Seq<Seq<char>>)
    requires
        forall|i: int| 0 <= i < s.len() ==> !path_lt(#[trigger] s[i].path, b),
        !path_lt(x.path, b),
    ensures
        forall|k: int|
            0 <= k < insert_sorted(s, x).len() ==> !path_lt(#[trigger] insert_sorted(s, x)[k].path, b),
    decreases s.len(),
{
    if s.len() > 0 && !path_lt(x.path, s[0].path) {
        let t = s.drop_first();
        assert forall|i: int| 0 <= i < t.len() implies !path_lt(#[trigger] t[i].path, b) by {
            assert(t[i] == s[i + 1]);
        }
        lemma_insert_sorted_lower(t, x, b);
        let r = insert_sorted(s, x);
        assert forall|k: int| 0 <= k < r.len() implies !path_lt(#[trigger] r[k].path, b) by {
            if k > 0 {
                assert(r[k] == insert_sorted(t, x)[k - 1]);
            }
        }
    } else if s.len() > 0 {
        let r = insert_sorted(s, x);
        assert forall|k: int| 0 <= k < r.len() implies !path_lt(#[trigger] r[k].path, b) by {
            if k > 0 {
                assert(r[k] == s[k - 1]);
            }
        }
    }
}

proof fn lemma_insert_sorted_sorted(s: Seq<SummaryView>, x: SummaryView)
    requires
        sorted_by_path(s),
    ensures
        sorted_by_path(insert_sorted(s, x)),
    decreases s.len(),
{
    if s.len() == 0 {
    } else if path_lt(x.path, s[0].path) {
        let r = insert_sorted(s, x);
        assert(r =~= seq![x] + s);
        assert forall|i: int, j: int| 0 <= i < j < r.len() implies !path_lt(
            #[trigger] r[j].path,
            #[trigger] r[i].path,
        ) by {
            if i == 0 {
                assert(r[j] == s[j - 1]);
                if path_lt(s[j - 1].path, x.path) {
                    lemma_path_lt_transitive(s[j - 1].path, x.path, s[0].path);
                    if j - 1 == 0 {
                        lemma_path_lt_irreflexive(s[0].path);
                    }
                }
            } else {
                assert(r[i] == s[i - 1]);
                assert(r[j] == s[j - 1]);
            }
        }
    } else {
        let t = s.drop_first();
        assert forall|i: int, j: int| 0 <= i < j < t.len() implies !path_lt(
            #[trigger] t[j].path,
            #[trigger] t[i].path,
        ) by {
            assert(t[i] == s[i + 1]);
            assert(t[j] == s[j + 1]);
        }
        lemma_insert_sorted_sorted(t, x);
        assert forall|i: int| 0 <= i < t.len() implies !path_lt(#[trigger] t[i].path, s[0].path) by {
            assert(t[i] == s[i + 1]);
        }
        lemma_insert_sorted_lower(t, x, s[0].path);
        let rt = insert_sorted(t, x);
        let r = insert_sorted(s, x);
        assert forall|i: int, j: int| 0 <= i < j < r.len() implies !path_lt(
            #[trigger] r[j].path,
            #[trigger] r[i].path,
        ) by {
            assert(r[j] == rt[j - 1]);
            if i > 0 {
                assert(r[i] == rt[i - 1]);
            }
        }
    }
}

proof fn lemma_group_insert_lower(g: Groups, key: Seq<char>, x: SummaryView, b: Seq<char>)
    requires
        forall|i: int| 0 <= i < g.len() ==> chars_lt(b, #[trigger] g[i].0),
        chars_lt(b, key),
    ensures
        forall|k: int|
            0 <= k < group_insert(g, key, x).len() ==> chars_lt(b, #[trigger] group_insert(g, key, x)[k].0),
    decreases g.len(),
{
    let r = group_insert(g, key, x);
    if g.len() == 0 {
    } else if g[0].0 == key {
        assert forall|k: int| 0 <= k < r.len() implies chars_lt(b, #[trigger] r[k].0) by {
            if k > 0 {
                assert(r[k] == g[k]);
            }
        }
    } else if chars_lt(key, g[0].0) {
        assert forall|k: int| 0 <= k < r.len() implies chars_lt(b, #[trigger] r[k].0) by {
            if k > 0 {
                assert(r[k] == g[k - 1]);
            }
        }
    } else {
        let t = g.drop_first();
        assert forall|i: int| 0 <= i < t.len() implies chars_lt(b, #[trigger] t[i].0) by {
            assert(t[i] == g[i + 1]);
        }
        lemma_group_insert_lower(t, key, x, b);
        assert forall|k: int| 0 <= k < r.len() implies chars_lt(b, #[trigger] r[k].0) by {
            if k > 0 {
                assert(r[k] == group_insert(t, key, x)[k - 1]);
            }
        }
    }
}

proof fn lemma_group_insert_increasing(g: Groups, key: Seq<char>, x: SummaryView)
    requires
        names_increasing(g),
    ensures
        names_increasing(group_insert(g, key, x)),
    decreases g.len(),
{
    let r = group_insert(g, key, x);
    if g.len() == 0 {
    } else if g[0].0 == key {
        assert forall|i: int, j: int| 0 <= i < j < r.len() implies chars_lt(
            #[trigger] r[i].0,
            #[trigger] r[j].0,
        ) by {
            assert(r[j] == g[j]);
            if i > 0 {
                assert(r[i] == g[i]);
            }
        }
    } else if chars_lt(key, g[0].0) {
        assert forall|i: int, j: int| 0 <= i < j < r.len() implies chars_lt(
            #[trigger] r[i].0,
            #[trigger] r[j].0,
        ) by {
            assert(r[j] == g[j - 1]);
            if i > 0 {
                assert(r[i] == g[i - 1]);
            } else if j - 1 > 0 {
                lemma_chars_lt_transitive(key, g[0].0, g[j - 1].0);
            }
        }
    } else {
        let t = g.drop_first();
        assert forall|i: int, j: int| 0 <= i < j < t.len() implies chars_lt(
            #[trigger] t[i].0,
            #[trigger] t[j].0,
        ) by {
            assert(t[i] == g[i + 1]);
            assert(t[j] == g[j + 1]);
        }
        lemma_group_insert_increasing(t, key, x);
        lemma_chars_lt_total(key, g[0].0);
        assert forall|i: int| 0 <= i < t.len() implies chars_lt(g[0].0, #[trigger] t[i].0) by {
            assert(t[i] == g[i + 1]);
        }
        lemma_group_insert_lower(t, key, x, g[0].0);
        let rt = group_insert(t, key, x);
        assert forall|i: int, j: int| 0 <= i < j < r.len() implies chars_lt(
            #[trigger] r[i].0,
            #[trigger] r[j].0,
        ) by {
            assert(r[j] == rt[j - 1]);
            if i > 0 {
                assert(r[i] == rt[i - 1]);
            }
        }
    }
}

/// Grouping keeps the short paths sorted and the group names increasing.
pub(crate) proof fn lemma_grouping_ordered(items: Seq<SummaryView>)
    ensures
        sorted_by_path(grouping(items).0),
        names_increasing(grouping(items).1),
    decreases items.len(),
{
    if items.len() > 0 {
        lemma_grouping_ordered(items.drop_last());
        let st = grouping(items.drop_last());
        let x = items.last();
        if x.path.len() <= 1 {
            lemma_insert_sorted_sorted(st.0, x);
        } else {
            lemma_group_insert_increasing(st.1, x.path[0], tail_of(x));
        }
    }
}

pub(crate) proof fn lemma_group_forest_index(gs: Groups, d: nat)
    ensures
        group_forest(gs, d).len() == gs.len(),
        forall|j: int|
            0 <= j < gs.len() ==> #[trigger] group_forest(gs, d)[j] == TreeView::Group(
                gs[j].0,
                forest(gs[j].1, d),
            ),
    decreases gs.len(),
{
    if gs.len() > 0 {
        lemma_group_forest_index(gs.drop_last(), d);
        assert forall|j: int| 0 <= j < gs.len() implies #[trigger] group_forest(gs, d)[j]
            == TreeView::Group(gs[j].0, forest(gs[j].1, d)) by {
            if j < gs.len() - 1 {
                assert(gs.drop_last()[j] == gs[j]);
            }
        }
    }
}

/// The path of a benchmark tree (empty for a group).
pub open spec fn leaf_path(t: TreeView) -> Seq<Seq<char>> {
    match t {
        TreeView::Benchmark(r) => r.path,
        TreeView::Group(_, _) => Seq::empty(),
    }
}

/// The name of a group tree (empty for a benchmark).
pub open spec fn group_name(t: TreeView) -> Seq<char> {
    match t {
        TreeView::Benchmark(_) => Seq::empty(),
        TreeView::Group(name, _) => name,
    }
}

/// The trees of a level come in order: first the benchmarks, sorted by path,
/// then the groups, with strictly increasing names (so no two groups of a
/// level share a name).
pub proof fn lemma_forest_ordered(items: Seq<SummaryView>, d: nat)
    ensures
        ({
            let f = forest(items, d);
            let n = grouping(items).0.len();
            &&& n <= f.len()
            &&& forall|i: int| 0 <= i < n ==> #[trigger] f[i] is Benchmark
            &&& forall|i: int| n <= i < f.len() ==> #[trigger] f[i] is Group
            &&& forall|i: int, j: int|
                0 <= i < j < n ==> !path_lt(leaf_path(#[trigger] f[j]), leaf_path(#[trigger] f[i]))
            &&& forall|i: int, j: int|
                n <= i < j < f.len() ==> chars_lt(group_name(#[trigger] f[i]), group_name(#[trigger] f[j]))
        }),
{
    lemma_grouping_ordered(items);
    let st = grouping(items);
    let leaves = st.0.map_values(|r: SummaryView| TreeView::Benchmark(r));
    let f = forest(items, d);
    let n = st.0.len();
    if d == 0 {
        assert(f =~= leaves);
    } else {
        let gf = group_forest(st.1, (d - 1) as nat);
        lemma_group_forest_index(st.1, (d - 1) as nat);
        assert(f =~= leaves + gf);
        assert forall|i: int| n <= i < f.len() implies #[trigger] f[i] is Group by {
            assert(f[i] == gf[i - n]);
        }
        assert forall|i: int, j: int| n <= i < j < f.len() implies chars_lt(
            group_name(#[trigger] f[i]),
            group_name(#[trigger] f[j]),
        ) by {
            assert(f[i] == gf[i - n]);
            assert(f[j] == gf[j - n]);
        }
    }
    assert forall|i: int| 0 <= i < n implies #[trigger] f[i] is Benchmark by {
        assert(f[i] == leaves[i]);
    }
    assert forall|i: int, j: int| 0 <= i < j < n implies !path_lt(
        leaf_path(#[trigger] f[j]),
        leaf_path(#[trigger] f[i]),
    ) by {
        assert(f[i] == leaves[i]);
        assert(f[j] == leaves[j]);
    }
}

} // verus!
