use vstd::prelude::*;
use crate::names::{join_path, join_with, path_sep};
use crate::text::{push_str_chars, string_from_chars};
use crate::tree::{
    forest, forest_view, group_forest, group_insert, grouping, groups_bounded, insert_sorted,
    max_path_len, summaries_view, tree_view, BenchmarkSummary, BenchmarkTree, ChangeSummary,
    ChangeView, Groups, SummaryView, TreeView,
};
use crate::units::{count, count_text};

verus! {

/// The foreground colour of a cell.
#[derive(Clone, Copy, Debug, PartialEq, Eq, Structural)]
pub enum Color {
    Plain,
    Red,
    Green,
}

/// How a cell's text is painted.
#[derive(Clone, Copy, Debug, PartialEq, Eq, Structural)]
pub struct CellStyle {
    pub bold: bool,
    pub dim: bool,
    pub color: Color,
}

/// The style of a cell that nothing has painted.
pub open spec fn plain_style() -> CellStyle {
    CellStyle { bold: false, dim: false, color: Color::Plain }
}

/// One cell of the results table: its text, its style and whether it is
/// aligned to the right.
pub struct Cell {
    pub style: CellStyle,
    pub right: bool,
    pub text: String,
}

/// The abstract value of a [`Cell`].
pub struct CellView {
    pub style: CellStyle,
    pub right: bool,
    pub text: Seq<char>,
}

impl View for Cell {
    type V = CellView;

    open spec fn view(&self) -> CellView {
        CellView { style: self.style, right: self.right, text: self.text@ }
    }
}

/// A plain cell, aligned to the right, that shows `text`.
pub open spec fn plain_cell(text: Seq<char>) -> CellView {
    CellView { style: plain_style(), right: true, text }
}

/// `c` aligned to the left.
pub open spec fn left_of(c: CellView) -> CellView {
    CellView { right: false, ..c }
}

/// `c` in bold.
pub open spec fn bold_of(c: CellView) -> CellView {
    CellView { style: CellStyle { bold: true, ..c.style }, ..c }
}

/// `c` dimmed.
pub open spec fn dim_of(c: CellView) -> CellView {
    CellView { style: CellStyle { dim: true, ..c.style }, ..c }
}

/// `c` in the colour `color`.
pub open spec fn colored(c: CellView, color: Color) -> CellView {
    CellView { style: CellStyle { color, ..c.style }, ..c }
}

impl Cell {
    /// A plain cell, aligned to the right, that shows `text`.
    pub fn new(text: String) -> (c: Cell)
        ensures
            c@ == plain_cell(text@),
    {
        Cell { style: CellStyle { bold: false, dim: false, color: Color::Plain }, right: true, text }
    }

    /// The cell aligned to the left.
    pub fn left(self) -> (c: Cell)
        ensures
            c@ == left_of(self@),
    {
        Cell { right: false, ..self }
    }

    /// The cell in bold.
    pub fn bold(self) -> (c: Cell)
        ensures
            c@ == bold_of(self@),
    {
        Cell { style: CellStyle { bold: true, ..self.style }, ..self }
    }

    /// The cell dimmed.
    pub fn dim(self) -> (c: Cell)
        ensures
            c@ == dim_of(self@),
    {
        Cell { style: CellStyle { dim: true, ..self.style }, ..self }
    }

    /// The cell in red.
    pub fn red(self) -> (c: Cell)
        ensures
            c@ == colored(self@, Color::Red),
    {
        Cell { style: CellStyle { color: Color::Red, ..self.style }, ..self }
    }

    /// The cell in green.
    pub fn green(self) -> (c: Cell)
        ensures
            c@ == colored(self@, Color::Green),
    {
        Cell { style: CellStyle { color: Color::Green, ..self.style }, ..self }
    }
}

/// The three characters drawn at level `i` in front of a name: the branch
/// itself at the last level `end - 1` (a corner for the last child), a bar
/// for the levels from `start` on that still have siblings to come, blanks
/// before.
pub open spec fn bar_piece(i: int, start: int, end: int, is_last: bool) -> Seq<char> {
    if i == end - 1 {
        if is_last {
            seq!['╰', '─', ' ']
        } else {
            seq!['├', '─', ' ']
        }
    } else if i >= start {
        seq!['│', ' ', ' ']
    } else {
        seq![' ', ' ', ' ']
    }
}

/// The pieces drawn at the levels `0..n`.
pub open spec fn bars(start: int, end: int, is_last: bool, n: nat) -> Seq<char>
    decreases n,
{
    if n == 0 {
        Seq::empty()
    } else {
        bars(start, end, is_last, (n - 1) as nat) + bar_piece(n - 1, start, end, is_last)
    }
}

/// `name` drawn as a node of the tree at depth `start..end`.
pub open spec fn tree_lines(start: int, end: int, is_last: bool, name: Seq<char>) -> Seq<char> {
    bars(start, end, is_last, end as nat) + name
}

/// `name` preceded by the lines that draw it as a node of the results tree:
/// one piece of three characters per level of `depth.end`.
pub fn print_tree_lines(depth: core::ops::Range<usize>, is_last: bool, name: &str) -> (s: String)
    ensures
        s@ == tree_lines(depth.start as int, depth.end as int, is_last, name@),
{
    let mut out: Vec<char> = Vec::new();
    let mut i: usize = 0;
    while i < depth.end
        invariant
            i <= depth.end,
            out@ == bars(depth.start as int, depth.end as int, is_last, i as nat),
        decreases depth.end - i,
    {
        if i == depth.end - 1 {
            if is_last {
                out.push('╰');
            } else {
                out.push('├');
            }
            out.push('─');
            out.push(' ');
        } else if i >= depth.start {
            out.push('│');
            out.push(' ');
            out.push(' ');
        } else {
            out.push(' ');
            out.push(' ');
            out.push(' ');
        }
        i = i + 1;
        assert(out@ =~= bars(depth.start as int, depth.end as int, is_last, i as nat));
    }
    push_str_chars(&mut out, name);
    string_from_chars(&out)
}


/// The cell that shows a change.
pub open spec fn change_cell(c: ChangeView) -> CellView {
    match c {
        ChangeView::NoBaseline => plain_cell(Seq::empty()),
        ChangeView::Insignificant(t) => dim_of(plain_cell(t)),
        ChangeView::Slower(t) => colored(bold_of(plain_cell(t)), Color::Red),
        ChangeView::Faster(t) => colored(bold_of(plain_cell(t)), Color::Green),
    }
}

/// The row of a benchmark at depth `start..end`: its tree-drawn path, the
/// lower bound, the mean in bold, the upper bound, the change and the
/// iteration count.
pub open spec fn benchmark_row(r: SummaryView, start: int, end: int, is_last: bool) -> Seq<
    CellView,
> {
    seq![
        left_of(plain_cell(tree_lines(start, end, is_last, join_with(r.path, path_sep())))),
        plain_cell(r.lower),
        bold_of(plain_cell(r.mean)),
        plain_cell(r.upper),
        change_cell(r.change),
        plain_cell(count_text(r.iters as nat)),
    ]
}

/// The title row of a group: for the first tree of the table, the name in
/// bold followed by the dimmed column titles; otherwise the name alone.
pub open spec fn group_row(name: Seq<char>, start: int, end: int, is_first: bool, is_last: bool) -> Seq<
    CellView,
> {
    let title = left_of(plain_cell(tree_lines(start, end, is_last, name)));
    if is_first {
        seq![
            bold_of(title),
            dim_of(plain_cell(seq!['l', 'o', 'w', 'e', 'r'])),
            dim_of(plain_cell(seq!['m', 'e', 'a', 'n'])),
            dim_of(plain_cell(seq!['u', 'p', 'p', 'e', 'r'])),
            dim_of(plain_cell(seq!['c', 'h', 'a', 'n', 'g', 'e'])),
            dim_of(plain_cell(seq!['i', 't', 'e', 'r', 's'])),
        ]
    } else {
        seq![title]
    }
}

/// The rows of the tree `t` drawn at depth `start..end`.
pub open spec fn tree_rows(t: TreeView, start: int, end: int, is_first: bool, is_last: bool) -> Seq<
    Seq<CellView>,
>
    decreases t, 0nat,
{
    match t {
        TreeView::Benchmark(r) => seq![benchmark_row(r, start, end, is_last)],
        TreeView::Group(name, cs) => seq![group_row(name, start, end, is_first, is_last)]
            + children_rows(cs, cs.len(), start, end, is_last),
    }
}

/// The rows of the first `k` children `cs` of a group drawn at depth
/// `start..end`: each child one level deeper, the last child marked as
/// such, and the bars of a last group closed.
pub open spec fn children_rows(cs: Seq<TreeView>, k: nat, start: int, end: int, is_last: bool) -> Seq<
    Seq<CellView>,
>
    decreases cs, k,
{
    if k == 0 || k > cs.len() {
        Seq::empty()
    } else {
        let i = k - 1;
        let last_child = i == cs.len() - 1;
        children_rows(cs, (k - 1) as nat, start, end, is_last) + tree_rows(
            cs[i],
            if last_child && is_last {
                start + 1
            } else {
                start
            },
            end + 1,
            false,
            last_child,
        )
    }
}

/// Every group of `t` has children, and groups nest at most `room` deep.
pub open spec fn fits(t: TreeView, room: int) -> bool
    decreases t, 0nat,
{
    match t {
        TreeView::Benchmark(_) => true,
        TreeView::Group(_, cs) => cs.len() > 0 && room >= 1 && all_fit(cs, cs.len(), room - 1),
    }
}

/// The first `k` trees of `cs` fit in `room`.
pub open spec fn all_fit(cs: Seq<TreeView>, k: nat, room: int) -> bool
    decreases cs, k,
{
    if k == 0 || k > cs.len() {
        true
    } else {
        all_fit(cs, (k - 1) as nat, room) && fits(cs[k - 1], room)
    }
}

/// The abstract value of a table.
pub open spec fn rows_view(rows: Seq<Vec<Cell>>) -> Seq<Seq<CellView>> {
    rows.map_values(|r: Vec<Cell>| r@.map_values(|c: Cell| c@))
}

proof fn lemma_forest_view_map(ts: Seq<BenchmarkTree>)
    ensures
        forest_view(ts) =~= ts.map_values(|t: BenchmarkTree| tree_view(t)),
    decreases ts.len(),
{
    if ts.len() > 0 {
        lemma_forest_view_map(ts.drop_last());
    }
}

proof fn lemma_all_fit(cs: Seq<TreeView>, k: nat, room: int, i: int)
    requires
        all_fit(cs, k, room),
        0 <= i < k <= cs.len(),
    ensures
        fits(cs[i], room),
    decreases k,
{
    if i < k - 1 {
        lemma_all_fit(cs, (k - 1) as nat, room, i);
    }
}

fn change_cell_exec(c: ChangeSummary) -> (cell: Cell)
    ensures
        cell@ == change_cell(c@),
{
    match c {
        ChangeSummary::NoBaseline => Cell::new(String::new()),
        ChangeSummary::Insignificant(t) => Cell::new(t).dim(),
        ChangeSummary::Slower(t) => Cell::new(t).bold().red(),
        ChangeSummary::Faster(t) => Cell::new(t).bold().green(),
    }
}

fn label(s: &str) -> (t: String)
    ensures
        t@ == s@,
{
    String::from_str(s)
}

fn print_tree_in(
    tree: BenchmarkTree,
    depth: core::ops::Range<usize>,
    is_first: bool,
    is_last: bool,
    Ghost(room): Ghost<int>,
) -> (rows: Vec<Vec<Cell>>)
    requires
        fits(tree_view(tree), room),
        depth.start + room <= usize::MAX,
        depth.end + room <= usize::MAX,
    ensures
        rows_view(rows@) == tree_rows(
            tree_view(tree),
            depth.start as int,
            depth.end as int,
            is_first,
            is_last,
        ),
    decreases room,
{
    let ghost tv = tree_view(tree);
    match tree {
        BenchmarkTree::Benchmark(result) => {
            let ghost rv = result@;
            let path = join_path(&result.path, "::");
            proof {
                reveal_strlit("::");
                assert("::"@ =~= path_sep());
            }
            let mut row: Vec<Cell> = Vec::new();
            row.push(Cell::new(print_tree_lines(depth, is_last, path.as_str())).left());
            row.push(Cell::new(result.lower));
            row.push(Cell::new(result.mean).bold());
            row.push(Cell::new(result.upper));
            row.push(change_cell_exec(result.change));
            row.push(Cell::new(count(result.iters)));
            let ghost rowv = row@.map_values(|c: Cell| c@);
            assert(rowv =~= benchmark_row(rv, depth.start as int, depth.end as int, is_last));
            let mut rows: Vec<Vec<Cell>> = Vec::new();
            rows.push(row);
            assert(rows_view(rows@) =~= seq![rowv]);
            rows
        },
        BenchmarkTree::Group(name, children) => {
            let ghost cs = forest_view(children@);
            proof {
                lemma_forest_view_map(children@);
            }
            let title = Cell::new(print_tree_lines(depth.start..depth.end, is_last, name.as_str())).left();
            let mut header: Vec<Cell> = Vec::new();
            if is_first {
                header.push(title.bold());
                header.push(Cell::new(label("lower")).dim());
                header.push(Cell::new(label("mean")).dim());
                header.push(Cell::new(label("upper")).dim());
                header.push(Cell::new(label("change")).dim());
                header.push(Cell::new(label("iters")).dim());
                proof {
                    reveal_strlit("lower");
                    reveal_strlit("mean");
                    reveal_strlit("upper");
                    reveal_strlit("change");
                    reveal_strlit("iters");
                    assert("lower"@ =~= seq!['l', 'o', 'w', 'e', 'r']);
                    assert("mean"@ =~= seq!['m', 'e', 'a', 'n']);
                    assert("upper"@ =~= seq!['u', 'p', 'p', 'e', 'r']);
                    assert("change"@ =~= seq!['c', 'h', 'a', 'n', 'g', 'e']);
                    assert("iters"@ =~= seq!['i', 't', 'e', 'r', 's']);
                }
            } else {
                header.push(title);
            }
            let ghost headv = header@.map_values(|c: Cell| c@);
            assert(headv =~= group_row(name@, depth.start as int, depth.end as int, is_first, is_last));
            let mut rows: Vec<Vec<Cell>> = Vec::new();
            rows.push(header);
            assert(rows_view(rows@) =~= seq![headv]);
            let last_child = children.len() - 1;
            let mut rest = children;
            let mut i: usize = 0;
            assert(cs.skip(0) =~= cs);
            while rest.len() > 0
                invariant
                    i <= cs.len(),
                    cs.len() <= usize::MAX,
                    cs.len() > 0,
                    last_child == cs.len() - 1,
                    rest@.map_values(|t: BenchmarkTree| tree_view(t)) == cs.skip(i as int),
                    all_fit(cs, cs.len(), room - 1),
                    room >= 1,
                    depth.start + room <= usize::MAX,
                    depth.end + room <= usize::MAX,
                    rows_view(rows@) == seq![group_row(name@, depth.start as int, depth.end as int, is_first, is_last)]
                        + children_rows(cs, i as nat, depth.start as int, depth.end as int, is_last),
                decreases rest.len(),
            {
                let ghost old_rest = rest@;
                assert(old_rest.map_values(|t: BenchmarkTree| tree_view(t)).len() == old_rest.len());
                let child = rest.remove(0);
                let ghost ct = tree_view(child);
                proof {
                    assert(old_rest.map_values(|t: BenchmarkTree| tree_view(t))[0] == ct);
                    assert(cs.skip(i as int)[0] == ct);
                    assert(rest@ =~= old_rest.drop_first());
                    let om = old_rest.map_values(|t: BenchmarkTree| tree_view(t));
                    let nm = rest@.map_values(|t: BenchmarkTree| tree_view(t));
                    assert(nm.len() == cs.skip(i + 1).len());
                    assert forall|k: int| 0 <= k < nm.len() implies nm[k] == cs.skip(i + 1)[k] by {
                        assert(nm[k] == tree_view(rest@[k]));
                        assert(rest@[k] == old_rest[k + 1]);
                        assert(om[k + 1] == tree_view(old_rest[k + 1]));
                        assert(om[k + 1] == cs.skip(i as int)[k + 1]);
                    }
                    assert(rest@.map_values(|t: BenchmarkTree| tree_view(t)) =~= cs.skip(i + 1));
                    assert(cs[i as int] == ct);
                    lemma_all_fit(cs, cs.len(), room - 1, i as int);
                }
                let is_last_child = i == last_child;
                let start = if is_last_child && is_last {
                    depth.start + 1
                } else {
                    depth.start
                };
                let mut sub = print_tree_in(child, start..depth.end + 1, false, is_last_child, Ghost(room - 1));
                let ghost before = rows@;
                let ghost subv = sub@;
                rows.append(&mut sub);
                proof {
                    assert(rows@ == before + subv);
                    assert(rows_view(rows@) =~= rows_view(before) + rows_view(subv));
                }
                i = i + 1;
            }
            proof {
                assert(cs.skip(i as int).len() == 0);
            }
            rows
        },
    }
}

/// The rows of the tree `tree` drawn at depth `depth`, as the results table
/// shows them; `is_first` marks the first tree of the table, whose title
/// row names the columns, and `is_last` the last child of its group.
pub fn print_tree(
    tree: BenchmarkTree,
    depth: core::ops::Range<usize>,
    is_first: bool,
    is_last: bool,
) -> (rows: Vec<Vec<Cell>>)
    requires
        fits(
            tree_view(tree),
            usize::MAX - if depth.start > depth.end {
                depth.start as int
            } else {
                depth.end as int
            },
        ),
    ensures
        rows_view(rows@) == tree_rows(
            tree_view(tree),
            depth.start as int,
            depth.end as int,
            is_first,
            is_last,
        ),
{
    let ghost room = usize::MAX - if depth.start > depth.end {
        depth.start as int
    } else {
        depth.end as int
    };
    print_tree_in(tree, depth, is_first, is_last, Ghost(room))
}


proof fn lemma_all_fit_from(cs: Seq<TreeView>, k: nat, room: int)
    requires
        k <= cs.len(),
        forall|i: int| 0 <= i < k ==> fits(#[trigger] cs[i], room),
    ensures
        all_fit(cs, k, room),
    decreases k,
{
    if k > 0 {
        lemma_all_fit_from(cs, (k - 1) as nat, room);
    }
}

proof fn lemma_insert_sorted_len(s: Seq<SummaryView>, x: SummaryView)
    ensures
        insert_sorted(s, x).len() == s.len() + 1,
    decreases s.len(),
{
    if s.len() > 0 {
        lemma_insert_sorted_len(s.drop_first(), x);
    }
}

proof fn lemma_group_insert_len(g: Groups, key: Seq<char>, x: SummaryView)
    ensures
        group_insert(g, key, x).len() >= 1,
        group_insert(g, key, x).len() >= g.len(),
    decreases g.len(),
{
    if g.len() > 0 {
        lemma_group_insert_len(g.drop_first(), key, x);
    }
}

/// The facts about `grouping(items)` that drawing needs: its groups have
/// members with paths shorter than `d`, and it is empty only for no items.
pub(crate) proof fn lemma_grouping_facts(items: Seq<SummaryView>, d: nat)
    requires
        forall|i: int| 0 <= i < items.len() ==> #[trigger] items[i].path.len() <= d,
    ensures
        groups_bounded(grouping(items).1, d),
        items.len() > 0 ==> grouping(items).0.len() + grouping(items).1.len() > 0,
    decreases items.len(),
{
    if items.len() > 0 {
        let prev = items.drop_last();
        assert forall|i: int| 0 <= i < prev.len() implies #[trigger] prev[i].path.len() <= d by {
            assert(prev[i] == items[i]);
        }
        lemma_grouping_facts(prev, d);
        let st = grouping(prev);
        let x = items.last();
        assert(x == items[items.len() - 1]);
        if x.path.len() <= 1 {
            lemma_insert_sorted_len(st.0, x);
        } else {
            crate::tree::lemma_group_insert_bounded(st.1, x.path[0], crate::tree::tail_of(x), d);
            lemma_group_insert_len(st.1, x.path[0], crate::tree::tail_of(x));
        }
    }
}

/// Every tree that grouping `items` at most `d` levels deep builds has
/// groups with children nested at most `room` deep, and some tree is built
/// when there are items.
pub(crate) proof fn lemma_forest_fits(items: Seq<SummaryView>, d: nat, room: int)
    requires
        forall|i: int| 0 <= i < items.len() ==> #[trigger] items[i].path.len() <= d,
        d <= room,
    ensures
        forall|i: int| 0 <= i < forest(items, d).len() ==> fits(#[trigger] forest(items, d)[i], room),
        items.len() > 0 ==> forest(items, d).len() > 0,
    decreases d, 0nat,
{
    lemma_grouping_facts(items, d);
    let st = grouping(items);
    let leaves = st.0.map_values(|r: SummaryView| TreeView::Benchmark(r));
    let f = forest(items, d);
    if d == 0 {
        if st.1.len() > 0 {
            assert(st.1[0].1.len() > 0);
            assert(st.1[0].1[0].path.len() + 1 <= d);
        }
        assert(f =~= leaves);
    } else {
        let gf = group_forest(st.1, (d - 1) as nat);
        lemma_group_forest_fits(st.1, (d - 1) as nat, room);
        assert(f =~= leaves + gf);
        assert forall|i: int| 0 <= i < f.len() implies fits(#[trigger] f[i], room) by {
            if i >= leaves.len() {
                assert(f[i] == gf[i - leaves.len()]);
            }
        }
    }
}

proof fn lemma_group_forest_fits(gs: Groups, d: nat, room: int)
    requires
        groups_bounded(gs, d + 1),
        d + 1 <= room,
    ensures
        group_forest(gs, d).len() == gs.len(),
        forall|i: int| 0 <= i < gs.len() ==> fits(#[trigger] group_forest(gs, d)[i], room),
    decreases d, gs.len(),
{
    if gs.len() > 0 {
        let prev = gs.drop_last();
        assert forall|j: int| 0 <= j < prev.len() implies {
            &&& #[trigger] prev[j].1.len() > 0
            &&& forall|k: int| 0 <= k < prev[j].1.len() ==> #[trigger] prev[j].1[k].path.len() + 1 <= d + 1
        } by {
            assert(prev[j] == gs[j]);
        }
        lemma_group_forest_fits(prev, d, room);
        let last = gs.last();
        assert(last == gs[gs.len() - 1]);
        let members = last.1;
        assert forall|k: int| 0 <= k < members.len() implies #[trigger] members[k].path.len() <= d by {
            assert(members[k].path.len() + 1 <= d + 1);
        }
        lemma_forest_fits(members, d, room - 1);
        let children = forest(members, d);
        lemma_all_fit_from(children, children.len(), room - 1);
        let gf = group_forest(gs, d);
        assert forall|i: int| 0 <= i < gs.len() implies fits(#[trigger] gf[i], room) by {
            if i < gs.len() - 1 {
                assert(gf[i] == group_forest(prev, d)[i]);
            }
        }
    }
}

/// The rows of the first `k` trees of `ts`, each drawn at the top level, the
/// first one with the column titles.
pub open spec fn table_rows(ts: Seq<TreeView>, k: nat) -> Seq<Seq<CellView>>
    decreases k,
{
    if k == 0 || k > ts.len() {
        Seq::empty()
    } else {
        table_rows(ts, (k - 1) as nat) + tree_rows(ts[k - 1], 0, 0, k - 1 == 0, true)
    }
}

proof fn lemma_max_path_len_bounded(items: Seq<SummaryView>, b: nat)
    requires
        forall|i: int| 0 <= i < items.len() ==> #[trigger] items[i].path.len() <= b,
    ensures
        max_path_len(items) <= b,
    decreases items.len(),
{
    if items.len() > 0 {
        let prev = items.drop_last();
        assert forall|i: int| 0 <= i < prev.len() implies #[trigger] prev[i].path.len() <= b by {
            assert(prev[i] == items[i]);
        }
        lemma_max_path_len_bounded(prev, b);
        assert(items.last() == items[items.len() - 1]);
    }
}

/// The results table: the benchmarks grouped by path, each tree drawn at
/// the top level, the first one with the column titles.
pub fn table(results: Vec<BenchmarkSummary>) -> (rows: Vec<Vec<Cell>>)
    ensures
        ({
            let items = summaries_view(results@);
            let ts = forest(items, max_path_len(items));
            rows_view(rows@) == table_rows(ts, ts.len())
        }),
{
    let ghost items = summaries_view(results@);
    let ghost d = max_path_len(items);
    proof {
        crate::tree::lemma_max_path_len(items);
        assert forall|i: int| 0 <= i < items.len() implies #[trigger] items[i].path.len()
            <= usize::MAX by {
            assert(items[i] == results@[i]@);
            assert(items[i].path.len() == results@[i].path@.len());
            assert(results@[i].path.len() == results@[i].path@.len());
        }
        lemma_max_path_len_bounded(items, usize::MAX as nat);
        lemma_forest_fits(items, d, usize::MAX as int);
    }
    let trees = BenchmarkTree::from(results);
    let ghost ts = forest(items, d);
    proof {
        lemma_forest_view_map(trees@);
        assert(trees@.map_values(|t: BenchmarkTree| tree_view(t)).len() == trees@.len());
        assert(trees.len() == trees@.len());
    }
    let mut rest = trees;
    let mut rows: Vec<Vec<Cell>> = Vec::new();
    let mut i: usize = 0;
    assert(ts.skip(0) =~= ts);
    while rest.len() > 0
        invariant
            i <= ts.len(),
            ts.len() <= usize::MAX,
            ts == forest(items, d),
            forall|j: int| 0 <= j < ts.len() ==> fits(#[trigger] ts[j], usize::MAX as int),
            rest@.map_values(|t: BenchmarkTree| tree_view(t)) == ts.skip(i as int),
            rows_view(rows@) == table_rows(ts, i as nat),
        decreases rest.len(),
    {
        let ghost old_rest = rest@;
        assert(old_rest.map_values(|t: BenchmarkTree| tree_view(t)).len() == old_rest.len());
        let tree = rest.remove(0);
        proof {
            let om = old_rest.map_values(|t: BenchmarkTree| tree_view(t));
            let nm = rest@.map_values(|t: BenchmarkTree| tree_view(t));
            assert(rest@ =~= old_rest.drop_first());
            assert(om[0] == tree_view(tree));
            assert(ts[i as int] == tree_view(tree));
            assert forall|k: int| 0 <= k < nm.len() implies nm[k] == ts.skip(i + 1)[k] by {
                assert(nm[k] == tree_view(rest@[k]));
                assert(rest@[k] == old_rest[k + 1]);
                assert(om[k + 1] == ts.skip(i as int)[k + 1]);
            }
            assert(nm =~= ts.skip(i + 1));
        }
        let mut sub = print_tree(tree, 0..0, i == 0, true);
        let ghost before = rows@;
        let ghost subv = sub@;
        rows.append(&mut sub);
        proof {
            assert(rows_view(rows@) =~= rows_view(before) + rows_view(subv));
        }
        i = i + 1;
    }
    rows
}


/// The number of columns of a table: the length of its first row.
pub open spec fn column_count(rows: Seq<Seq<CellView>>) -> nat {
    if rows.len() == 0 {
        0
    } else {
        rows[0].len()
    }
}

/// The width of column `i`: the most characters of a cell in that column.
pub open spec fn column_width(rows: Seq<Seq<CellView>>, i: int) -> nat
    decreases rows.len(),
{
    if rows.len() == 0 {
        0
    } else {
        let w = column_width(rows.drop_last(), i);
        let r = rows.last();
        if 0 <= i < r.len() && r[i].text.len() > w {
            r[i].text.len()
        } else {
            w
        }
    }
}

/// The width of each column of `table`, as many as the cells of its first
/// row: the most characters of a cell in that column.
pub fn column_widths(table: &Vec<Vec<Cell>>) -> (widths: Vec<usize>)
    ensures
        widths@.len() == column_count(rows_view(table@)),
        forall|i: int|
            0 <= i < widths@.len() ==> #[trigger] widths@[i] == column_width(rows_view(table@), i),
{
    let ghost rows = rows_view(table@);
    let ncols = if table.len() == 0 {
        0
    } else {
        table[0].len()
    };
    let mut widths: Vec<usize> = Vec::new();
    let mut i: usize = 0;
    while i < ncols
        invariant
            i <= ncols,
            rows == rows_view(table@),
            ncols == column_count(rows),
            widths@.len() == i,
            forall|k: int| 0 <= k < i ==> #[trigger] widths@[k] == column_width(rows, k),
        decreases ncols - i,
    {
        let mut w: usize = 0;
        let mut j: usize = 0;
        assert(rows.take(0) =~= Seq::<Seq<CellView>>::empty());
        while j < table.len()
            invariant
                j <= table.len(),
                rows == rows_view(table@),
                w == column_width(rows.take(j as int), i as int),
            decreases table.len() - j,
        {
            assert(rows.take(j + 1).drop_last() =~= rows.take(j as int));
            assert(rows.take(j + 1).last() == rows[j as int]);
            assert(rows[j as int] == table@[j as int]@.map_values(|c: Cell| c@));
            if i < table[j].len() {
                assert(rows[j as int][i as int] == table@[j as int]@[i as int]@);
                let l = table[j][i].text.as_str().unicode_len();
                if l > w {
                    w = l;
                }
            }
            j = j + 1;
        }
        assert(rows.take(table.len() as int) =~= rows);
        widths.push(w);
        i = i + 1;
    }
    widths
}

/// `n` spaces.
pub open spec fn spaces(n: nat) -> Seq<char> {
    Seq::new(n, |k: int| ' ')
}

/// `text` filled with spaces to `width` characters, on the left when the
/// text is aligned to the right and on the right otherwise.
pub open spec fn padded(text: Seq<char>, width: nat, right: bool) -> Seq<char> {
    if text.len() >= width {
        text
    } else if right {
        spaces((width - text.len()) as nat) + text
    } else {
        text + spaces((width - text.len()) as nat)
    }
}

/// The cells of `rows` as they are printed: each row cut to the number of
/// columns, each cell filled to the width of its column.
pub open spec fn laid_out(rows: Seq<Seq<CellView>>) -> Seq<Seq<CellView>> {
    Seq::new(
        rows.len(),
        |j: int|
            Seq::new(
                if rows[j].len() < column_count(rows) {
                    rows[j].len()
                } else {
                    column_count(rows)
                },
                |i: int|
                    CellView {
                        text: padded(rows[j][i].text, column_width(rows, i), rows[j][i].right),
                        ..rows[j][i]
                    },
            ),
    )
}

fn pad(text: &String, width: usize, right: bool) -> (s: String)
    ensures
        s@ == padded(text@, width as nat, right),
{
    let n = text.as_str().unicode_len();
    if n >= width {
        return text.clone();
    }
    let mut out: Vec<char> = Vec::new();
    if !right {
        push_str_chars(&mut out, text.as_str());
    }
    let mut k: usize = 0;
    let ghost base = out@;
    while k < width - n
        invariant
            k <= width - n,
            n < width,
            out@ == base + spaces(k as nat),
        decreases width - n - k,
    {
        out.push(' ');
        k = k + 1;
        assert(out@ =~= base + spaces(k as nat));
    }
    if right {
        push_str_chars(&mut out, text.as_str());
    }
    assert(out@ =~= padded(text@, width as nat, right));
    string_from_chars(&out)
}

/// The table as it is printed: every row cut to the number of columns and
/// every cell filled with spaces to the width of its column.
pub fn layout(table: Vec<Vec<Cell>>) -> (lines: Vec<Vec<Cell>>)
    ensures
        rows_view(lines@) == laid_out(rows_view(table@)),
{
    let ghost rows = rows_view(table@);
    let widths = column_widths(&table);
    let mut lines: Vec<Vec<Cell>> = Vec::new();
    let mut j: usize = 0;
    while j < table.len()
        invariant
            j <= table.len(),
            rows == rows_view(table@),
            widths@.len() == column_count(rows),
            forall|i: int| 0 <= i < widths@.len() ==> #[trigger] widths@[i] == column_width(rows, i),
            lines@.len() == j,
            forall|m: int| 0 <= m < j ==> #[trigger] rows_view(lines@)[m] == laid_out(rows)[m],
        decreases table.len() - j,
    {
        let row = &table[j];
        let n = if row.len() < widths.len() {
            row.len()
        } else {
            widths.len()
        };
        let mut line: Vec<Cell> = Vec::new();
        let mut i: usize = 0;
        assert(rows[j as int] == table@[j as int]@.map_values(|c: Cell| c@));
        while i < n
            invariant
                i <= n,
                j < table.len(),
                rows.len() == table@.len(),
                n <= row.len(),
                n <= widths.len(),
                rows == rows_view(table@),
                *row == table@[j as int],
                widths@.len() == column_count(rows),
                forall|k: int| 0 <= k < widths@.len() ==> #[trigger] widths@[k] == column_width(rows, k),
                rows[j as int] == row@.map_values(|c: Cell| c@),
                line@.len() == i,
                forall|k: int|
                    0 <= k < i ==> #[trigger] line@[k]@ == (CellView {
                        text: padded(rows[j as int][k].text, column_width(rows, k), rows[j as int][k].right),
                        ..rows[j as int][k]
                    }),
            decreases n - i,
        {
            let cell = &row[i];
            assert(rows[j as int][i as int] == cell@);
            let text = pad(&cell.text, widths[i], cell.right);
            line.push(Cell { style: cell.style, right: cell.right, text });
            i = i + 1;
        }
        let ghost before = lines@;
        let ghost lv = line@;
        proof {
            assert(rows.len() == table@.len());
            assert(row@.map_values(|c: Cell| c@).len() == row@.len());
            assert(lv.map_values(|c: Cell| c@) =~= laid_out(rows)[j as int]);
        }
        lines.push(line);
        proof {
            assert(lines@[j as int]@ == lv);
            assert forall|m: int| 0 <= m < j + 1 implies #[trigger] rows_view(lines@)[m] == laid_out(rows)[m] by {
                assert(rows_view(lines@)[m] == lines@[m]@.map_values(|c: Cell| c@));
                if m < j {
                    assert(lines@[m] == before[m]);
                    assert(rows_view(before)[m] == before[m]@.map_values(|c: Cell| c@));
                } else {
                    assert(lines@[m]@ == lv);
                }
            }
        }
        j = j + 1;
    }
    assert(rows_view(lines@) =~= laid_out(rows));
    lines
}


/// Laying a table out changes only the texts: every printed cell keeps the
/// style and the alignment of its cell, and its text is the cell's text with
/// spaces added on the side away from its alignment (before it when aligned
/// right, after it when aligned left). Each row keeps its cells, up to the
/// number of columns.
pub proof fn lemma_layout_keeps_cells(rows: Seq<Seq<CellView>>)
    ensures
        laid_out(rows).len() == rows.len(),
        forall|j: int|
            0 <= j < rows.len() ==> #[trigger] laid_out(rows)[j].len() == if rows[j].len()
                < column_count(rows) {
                rows[j].len()
            } else {
                column_count(rows)
            },
        forall|j: int, i: int|
            0 <= j < laid_out(rows).len() && 0 <= i < laid_out(rows)[j].len() ==> {
                let out = #[trigger] laid_out(rows)[j][i];
                let cell = rows[j][i];
                let pad = (out.text.len() - cell.text.len()) as int;
                &&& out.style == cell.style
                &&& out.right == cell.right
                &&& out.text.len() >= cell.text.len()
                &&& cell.right ==> out.text.subrange(pad, out.text.len() as int) == cell.text
                &&& cell.right ==> forall|m: int| 0 <= m < pad ==> #[trigger] out.text[m] == ' '
                &&& !cell.right ==> out.text.subrange(0, cell.text.len() as int) == cell.text
                &&& !cell.right ==> forall|m: int|
                    cell.text.len() <= m < out.text.len() ==> #[trigger] out.text[m] == ' '
            },
{
    assert forall|j: int, i: int|
        0 <= j < laid_out(rows).len() && 0 <= i < laid_out(rows)[j].len() implies {
            let out = #[trigger] laid_out(rows)[j][i];
            let cell = rows[j][i];
            let pad = (out.text.len() - cell.text.len()) as int;
            &&& out.style == cell.style
            &&& out.right == cell.right
            &&& out.text.len() >= cell.text.len()
            &&& cell.right ==> out.text.subrange(pad, out.text.len() as int) == cell.text
            &&& cell.right ==> forall|m: int| 0 <= m < pad ==> #[trigger] out.text[m] == ' '
            &&& !cell.right ==> out.text.subrange(0, cell.text.len() as int) == cell.text
            &&& !cell.right ==> forall|m: int|
                cell.text.len() <= m < out.text.len() ==> #[trigger] out.text[m] == ' '
        } by {
        let out = laid_out(rows)[j][i];
        let cell = rows[j][i];
        let w = column_width(rows, i);
        assert(out.text == padded(cell.text, w, cell.right));
        if cell.text.len() < w {
            let sp = spaces((w - cell.text.len()) as nat);
            if cell.right {
                assert(out.text == sp + cell.text);
                assert(out.text.subrange(sp.len() as int, out.text.len() as int) =~= cell.text);
            } else {
                assert(out.text == cell.text + sp);
                assert(out.text.subrange(0, cell.text.len() as int) =~= cell.text);
            }
        } else {
            assert(out.text.subrange(0, cell.text.len() as int) =~= cell.text);
        }
    }
}

/// A name drawn in the tree takes three characters per level before it.
pub proof fn lemma_tree_lines_len(start: int, end: nat, is_last: bool, name: Seq<char>)
    ensures
        tree_lines(start, end as int, is_last, name).len() == 3 * end + name.len(),
{
    lemma_bars_len(start, end as int, is_last, end);
}

pub(crate) proof fn lemma_bars_len(start: int, end: int, is_last: bool, n: nat)
    ensures
        bars(start, end, is_last, n).len() == 3 * n,
    decreases n,
{
    if n > 0 {
        lemma_bars_len(start, end, is_last, (n - 1) as nat);
    }
}

/// Whether a node is the last child changes one character of its line:
/// the branch at the last level, a corner `╰` for the last child and a tee
/// `├` otherwise; every other character is the same.
pub proof fn lemma_is_last_changes_only_the_branch(start: int, end: nat, name: Seq<char>)
    requires
        end >= 1,
    ensures
        ({
            let a = tree_lines(start, end as int, true, name);
            let b = tree_lines(start, end as int, false, name);
            &&& a.len() == b.len()
            &&& a[3 * (end - 1)] == '╰'
            &&& b[3 * (end - 1)] == '├'
            &&& forall|k: int| 0 <= k < a.len() && k != 3 * (end - 1) ==> #[trigger] a[k] == b[k]
        }),
{
    lemma_bars_differ(start, end as int, end);
    lemma_bars_len(start, end as int, true, end);
    lemma_bars_len(start, end as int, false, end);
    let a = tree_lines(start, end as int, true, name);
    let b = tree_lines(start, end as int, false, name);
    let ba = bars(start, end as int, true, end);
    let bb = bars(start, end as int, false, end);
    assert forall|k: int| 0 <= k < a.len() && k != 3 * (end - 1) implies #[trigger] a[k] == b[k] by {
        if k < 3 * end {
            assert(a[k] == ba[k]);
            assert(b[k] == bb[k]);
        } else {
            assert(a[k] == name[k - 3 * end]);
            assert(b[k] == name[k - 3 * end]);
        }
    }
    assert(a[3 * (end - 1)] == ba[3 * (end - 1)]);
    assert(b[3 * (end - 1)] == bb[3 * (end - 1)]);
}

proof fn lemma_bars_differ(start: int, end: int, n: nat)
    requires
        end >= 1,
    ensures
        forall|k: int|
            0 <= k < 3 * n && k != 3 * (end - 1) ==> #[trigger] bars(start, end, true, n)[k] == bars(
                start,
                end,
                false,
                n,
            )[k],
        n >= end ==> bars(start, end, true, n)[3 * (end - 1)] == '╰',
        n >= end ==> bars(start, end, false, n)[3 * (end - 1)] == '├',
    decreases n,
{
    if n > 0 {
        let m = (n - 1) as nat;
        lemma_bars_differ(start, end, m);
        lemma_bars_len(start, end, true, m);
        lemma_bars_len(start, end, false, m);
        let a = bars(start, end, true, n);
        let b = bars(start, end, false, n);
        let pa = bar_piece(m as int, start, end, true);
        let pb = bar_piece(m as int, start, end, false);
        assert(a == bars(start, end, true, m) + pa);
        assert(b == bars(start, end, false, m) + pb);
        assert forall|k: int| 0 <= k < 3 * n && k != 3 * (end - 1) implies #[trigger] a[k] == b[k] by {
            if k < 3 * m {
                assert(a[k] == bars(start, end, true, m)[k]);
                assert(b[k] == bars(start, end, false, m)[k]);
            } else {
                assert(a[k] == pa[k - 3 * m]);
                assert(b[k] == pb[k - 3 * m]);
            }
        }
        if n >= end {
            if m >= end {
                assert(a[3 * (end - 1)] == bars(start, end, true, m)[3 * (end - 1)]);
                assert(b[3 * (end - 1)] == bars(start, end, false, m)[3 * (end - 1)]);
            } else {
                assert(a[3 * (end - 1)] == pa[0]);
                assert(b[3 * (end - 1)] == pb[0]);
            }
        }
    }
}

proof fn lemma_column_width_bound(rows: Seq<Seq<CellView>>, i: int, j: int)
    requires
        0 <= j < rows.len(),
        0 <= i < rows[j].len(),
    ensures
        rows[j][i].text.len() <= column_width(rows, i),
    decreases rows.len(),
{
    if j < rows.len() - 1 {
        lemma_column_width_bound(rows.drop_last(), i, j);
        assert(rows.drop_last()[j] == rows[j]);
    }
}

/// The columns of the printed table line up: every cell that is printed is
/// exactly as wide as its column, and no cell is wider than its column.
pub proof fn lemma_layout_aligned(rows: Seq<Seq<CellView>>)
    ensures
        forall|j: int, i: int|
            0 <= j < rows.len() && 0 <= i < rows[j].len() ==> (#[trigger] rows[j][i]).text.len()
                <= column_width(rows, i),
        forall|j: int, i: int|
            0 <= j < laid_out(rows).len() && 0 <= i < laid_out(rows)[j].len() ==> (
            #[trigger] laid_out(rows)[j][i]).text.len() == column_width(rows, i),
{
    assert forall|j: int, i: int| 0 <= j < rows.len() && 0 <= i < rows[j].len() implies (
    #[trigger] rows[j][i]).text.len() <= column_width(rows, i) by {
        lemma_column_width_bound(rows, i, j);
    }
    assert forall|j: int, i: int|
        0 <= j < laid_out(rows).len() && 0 <= i < laid_out(rows)[j].len() implies (
        #[trigger] laid_out(rows)[j][i]).text.len() == column_width(rows, i) by {
        lemma_column_width_bound(rows, i, j);
    }
}

} // verus!
