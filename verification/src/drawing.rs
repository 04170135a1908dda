use vstd::prelude::*;
use crate::names::{join_with, path_sep};
use crate::table::{bar_piece, bars, children_rows, table_rows, tree_lines, tree_rows};
use crate::tree::TreeView;

verus! {

/// The text that names the node `t` in its row: a benchmark's whole
/// remaining path, a group's name.
pub open spec fn node_label(t: TreeView) -> Seq<char> {
    match t {
        TreeView::Benchmark(r) => join_with(r.path, path_sep()),
        TreeView::Group(name, _) => name,
    }
}

/// The line `line` is blank at level `i` (its character `3 * i`).
pub open spec fn blank_at(line: Seq<char>, i: int) -> bool {
    line.len() > 3 * i && line[3 * i] == ' '
}

/// The characters drawn for level `i` sit at `3 * i` onwards.
proof fn lemma_bars_at(start: int, end: int, is_last: bool, n: nat, i: int, m: int)
    requires
        0 <= i < n,
        0 <= m < 3,
    ensures
        bars(start, end, is_last, n).len() == 3 * n,
        bars(start, end, is_last, n)[3 * i + m] == bar_piece(i, start, end, is_last)[m],
    decreases n,
{
    let p = (n - 1) as nat;
    crate::table::lemma_bars_len(start, end, is_last, p);
    crate::table::lemma_bars_len(start, end, is_last, n);
    if i < p {
        lemma_bars_at(start, end, is_last, p, i, m);
    }
}

/// The character at `3 * i` of a line drawn at depth `start..end`.
proof fn lemma_tree_lines_at(start: int, end: int, is_last: bool, name: Seq<char>, i: int)
    requires
        0 <= i < end,
    ensures
        tree_lines(start, end, is_last, name).len() > 3 * i,
        tree_lines(start, end, is_last, name)[3 * i] == bar_piece(i, start, end, is_last)[0],
{
    lemma_bars_at(start, end, is_last, end as nat, i, 0);
}

/// The first row of a tree is its own line.
proof fn lemma_first_row(t: TreeView, start: int, end: int, is_first: bool, is_last: bool)
    ensures
        tree_rows(t, start, end, is_first, is_last).len() >= 1,
        tree_rows(t, start, end, is_first, is_last)[0].len() >= 1,
        tree_rows(t, start, end, is_first, is_last)[0][0].text == tree_lines(
            start,
            end,
            is_last,
            node_label(t),
        ),
{
}

/// The rows of the first `a` children come first among those of the first
/// `k`.
proof fn lemma_children_rows_prefix(
    cs: Seq<TreeView>,
    a: nat,
    k: nat,
    start: int,
    end: int,
    is_last: bool,
)
    requires
        a <= k <= cs.len(),
    ensures
        children_rows(cs, a, start, end, is_last).len() <= children_rows(cs, k, start, end, is_last).len(),
        forall|j: int|
            0 <= j < children_rows(cs, a, start, end, is_last).len() ==> #[trigger] children_rows(
                cs,
                k,
                start,
                end,
                is_last,
            )[j] == children_rows(cs, a, start, end, is_last)[j],
    decreases k,
{
    if a < k {
        lemma_children_rows_prefix(cs, a, (k - 1) as nat, start, end, is_last);
    }
}

/// The first row of child `i` of a group drawn at depth `start..end`.
proof fn lemma_child_first_row(
    cs: Seq<TreeView>,
    i: int,
    start: int,
    end: int,
    is_last: bool,
)
    requires
        0 <= i < cs.len(),
    ensures
        ({
            let rows = children_rows(cs, cs.len(), start, end, is_last);
            let at = children_rows(cs, i as nat, start, end, is_last).len();
            let last_child = i == cs.len() - 1;
            let child_start = if last_child && is_last {
                start + 1
            } else {
                start
            };
            &&& at < rows.len()
            &&& rows[at as int].len() >= 1
            &&& rows[at as int][0].text == tree_lines(child_start, end + 1, last_child, node_label(cs[i]))
        }),
{
    let last_child = i == cs.len() - 1;
    let child_start = if last_child && is_last {
        start + 1
    } else {
        start
    };
    lemma_first_row(cs[i], child_start, end + 1, false, last_child);
    lemma_children_rows_prefix(cs, (i + 1) as nat, cs.len(), start, end, is_last);
    let before = children_rows(cs, i as nat, start, end, is_last);
    let upto = children_rows(cs, (i + 1) as nat, start, end, is_last);
    assert(upto == before + tree_rows(cs[i], child_start, end + 1, false, last_child));
    assert(upto[before.len() as int] == tree_rows(cs[i], child_start, end + 1, false, last_child)[0]);
}

/// Drawing the children of a group: the line of every child has, at the
/// group's own level `end - 1`, the bar `│` that leads on to the group's
/// next sibling when the group is not the last child (`is_last` false) and
/// its level is drawn (`start < end`); when the group is the last child and
/// its bars are closed (`start >= end - 1`), the last child's line is blank
/// there. At its own level `end`, each child's line has the corner `╰` for
/// the last child and the tee `├` for the others.
pub proof fn lemma_children_lines(
    name: Seq<char>,
    cs: Seq<TreeView>,
    start: int,
    end: int,
    is_first: bool,
    is_last: bool,
)
    ensures
        forall|i: int|
            0 <= i < cs.len() ==> {
                let rows = tree_rows(TreeView::Group(name, cs), start, end, is_first, is_last);
                let line = rows[1 + (#[trigger] children_rows(cs, i as nat, start, end, is_last)).len() as int][0].text;
                &&& !is_last && 0 <= start < end ==> line[3 * (end - 1)] == '│'
                &&& is_last && end >= 1 && start >= end - 1 && i == cs.len() - 1 ==> line[3 * (end
                    - 1)] == ' '
                &&& end >= 0 && i == cs.len() - 1 ==> line[3 * end] == '╰'
                &&& end >= 0 && i < cs.len() - 1 ==> line[3 * end] == '├'
            },
{
    assert forall|i: int| 0 <= i < cs.len() implies {
        let rows = tree_rows(TreeView::Group(name, cs), start, end, is_first, is_last);
        let line = rows[1 + (#[trigger] children_rows(cs, i as nat, start, end, is_last)).len() as int][0].text;
        &&& !is_last && 0 <= start < end ==> line[3 * (end - 1)] == '│'
        &&& is_last && end >= 1 && start >= end - 1 && i == cs.len() - 1 ==> line[3 * (end - 1)]
            == ' '
        &&& end >= 0 && i == cs.len() - 1 ==> line[3 * end] == '╰'
        &&& end >= 0 && i < cs.len() - 1 ==> line[3 * end] == '├'
    } by {
        let rows = tree_rows(TreeView::Group(name, cs), start, end, is_first, is_last);
        let kids = children_rows(cs, cs.len(), start, end, is_last);
        let at = children_rows(cs, i as nat, start, end, is_last).len();
        lemma_child_first_row(cs, i, start, end, is_last);
        assert(rows[1 + at as int] == kids[at as int]);
        let last_child = i == cs.len() - 1;
        let child_start = if last_child && is_last {
            start + 1
        } else {
            start
        };
        if end >= 1 {
            lemma_tree_lines_at(child_start, end + 1, last_child, node_label(cs[i]), end - 1);
        }
        if end >= 0 {
            lemma_tree_lines_at(child_start, end + 1, last_child, node_label(cs[i]), end);
        }
    }
}

/// Below a node drawn at depth `start..end` (with `start <= end`), no line
/// of its subtree draws anything at the levels before `start`: those
/// levels are blank, except that the node's own line has its branch at
/// `end - 1`.
proof fn lemma_tree_rows_blank_before(t: TreeView, start: int, end: int, is_first: bool, is_last: bool)
    requires
        0 <= start <= end,
    ensures
        forall|j: int, i: int|
            0 <= j < tree_rows(t, start, end, is_first, is_last).len() && 0 <= i < start && (j >= 1
                || i < end - 1) ==> #[trigger] blank_at(
                tree_rows(t, start, end, is_first, is_last)[j][0].text,
                i,
            ),
        forall|j: int|
            0 <= j < tree_rows(t, start, end, is_first, is_last).len() ==> (#[trigger] tree_rows(
                t,
                start,
                end,
                is_first,
                is_last,
            )[j]).len() >= 1,
    decreases t, 0nat,
{
    let rows = tree_rows(t, start, end, is_first, is_last);
    lemma_first_row(t, start, end, is_first, is_last);
    match t {
        TreeView::Benchmark(_) => {
        },
        TreeView::Group(name, cs) => {
            lemma_children_blank_before(cs, cs.len(), start, end, is_last);
            let kids = children_rows(cs, cs.len(), start, end, is_last);
            assert forall|j: int| 1 <= j < rows.len() implies rows[j] == kids[j - 1] by {}
        },
    }
    assert forall|j: int, i: int|
        0 <= j < rows.len() && 0 <= i < start && (j >= 1 || i < end - 1) implies #[trigger] blank_at(
        rows[j][0].text,
        i,
    ) by {
        if j == 0 {
            lemma_tree_lines_at(start, end, is_last, node_label(t), i);
        }
    }
}

proof fn lemma_children_blank_before(cs: Seq<TreeView>, k: nat, start: int, end: int, is_last: bool)
    requires
        0 <= start <= end,
    ensures
        forall|j: int, i: int|
            0 <= j < children_rows(cs, k, start, end, is_last).len() && 0 <= i < start
                ==> #[trigger] blank_at(children_rows(cs, k, start, end, is_last)[j][0].text, i),
        forall|j: int|
            0 <= j < children_rows(cs, k, start, end, is_last).len() ==> (
            #[trigger] children_rows(cs, k, start, end, is_last)[j]).len() >= 1,
    decreases cs, k,
{
    if k > 0 && k <= cs.len() {
        let p = (k - 1) as nat;
        lemma_children_blank_before(cs, p, start, end, is_last);
        let last_child = p == cs.len() - 1;
        let child_start = if last_child && is_last {
            start + 1
        } else {
            start
        };
        lemma_tree_rows_blank_before(cs[p as int], child_start, end + 1, false, last_child);
        let before = children_rows(cs, p, start, end, is_last);
        let sub = tree_rows(cs[p as int], child_start, end + 1, false, last_child);
        let all = children_rows(cs, k, start, end, is_last);
        assert(all == before + sub);
        assert forall|j: int| 0 <= j < all.len() implies (#[trigger] all[j]).len() >= 1 by {
            if j >= before.len() {
                assert(all[j] == sub[j - before.len()]);
            }
        }
        assert forall|j: int, i: int| 0 <= j < all.len() && 0 <= i < start implies #[trigger] blank_at(
            all[j][0].text,
            i,
        ) by {
            if j >= before.len() {
                assert(all[j] == sub[j - before.len()]);
            }
        }
    }
}

/// The rows of the first `a` trees come first among those of the first `k`.
proof fn lemma_table_rows_prefix(ts: Seq<TreeView>, a: nat, k: nat)
    requires
        a <= k <= ts.len(),
    ensures
        table_rows(ts, a).len() <= table_rows(ts, k).len(),
        forall|j: int|
            0 <= j < table_rows(ts, a).len() ==> #[trigger] table_rows(ts, k)[j] == table_rows(ts, a)[j],
    decreases k,
{
    if a < k {
        lemma_table_rows_prefix(ts, a, (k - 1) as nat);
    }
}

proof fn lemma_table_block(ts: Seq<TreeView>, k: int)
    requires
        0 <= k < ts.len(),
    ensures
        ({
            let at = table_rows(ts, k as nat).len();
            let own = tree_rows(ts[k], 0, 0, k == 0, true);
            &&& at + own.len() <= table_rows(ts, ts.len()).len()
            &&& table_rows(ts, ts.len()).subrange(at as int, (at + own.len()) as int) == own
        }),
{
    lemma_table_rows_prefix(ts, (k + 1) as nat, ts.len());
    let upto = table_rows(ts, (k + 1) as nat);
    let at = table_rows(ts, k as nat).len();
    let own = tree_rows(ts[k], 0, 0, k == 0, true);
    assert(upto == table_rows(ts, k as nat) + own);
    assert(table_rows(ts, ts.len()).subrange(at as int, (at + own.len()) as int) =~= own);
}

/// The table is the top-level trees drawn one after the other, each exactly
/// as `print_tree` draws it at depth `0..0` as a last node, the first one
/// with the column titles.
pub proof fn lemma_table_draws_each_tree_as_last(ts: Seq<TreeView>)
    ensures
        forall|k: int|
            #![trigger ts[k]]
            0 <= k < ts.len() ==> {
                let at = table_rows(ts, k as nat).len();
                let own = tree_rows(ts[k], 0, 0, k == 0, true);
                &&& at + own.len() <= table_rows(ts, ts.len()).len()
                &&& table_rows(ts, ts.len()).subrange(at as int, (at + own.len()) as int) == own
            },
{
    assert forall|k: int| #![trigger ts[k]] 0 <= k < ts.len() implies {
        let at = table_rows(ts, k as nat).len();
        let own = tree_rows(ts[k], 0, 0, k == 0, true);
        &&& at + own.len() <= table_rows(ts, ts.len()).len()
        &&& table_rows(ts, ts.len()).subrange(at as int, (at + own.len()) as int) == own
    } by {
        lemma_table_block(ts, k);
    }
}

/// In the table no line under the last child of a top-level group draws a
/// bar at the outermost level: the top-level trees are all drawn as last
/// nodes, so once a top-level group's last child is reached its level is
/// closed, and every line below that child (in its subtree) is blank at
/// character `0`. Here `k` is the top-level tree and `j` a line of its
/// last child's subtree, after the child's own line.
pub proof fn lemma_table_closes_top_groups(ts: Seq<TreeView>, k: int, j: int)
    requires
        0 <= k < ts.len(),
        ts[k] is Group,
        ts[k]->Group_1.len() > 0,
        1 <= j < tree_rows(ts[k]->Group_1.last(), 1, 1, false, true).len(),
    ensures
        ({
            let cs = ts[k]->Group_1;
            let at = table_rows(ts, k as nat).len() + 1 + children_rows(
                cs,
                (cs.len() - 1) as nat,
                0,
                0,
                true,
            ).len();
            table_rows(ts, ts.len())[at as int + j][0].text[0] == ' '
        }),
{
    let cs = ts[k]->Group_1;
    let n = (cs.len() - 1) as nat;
    let below = tree_rows(cs.last(), 1, 1, false, true);
    let base = table_rows(ts, k as nat).len();
    let own = tree_rows(ts[k], 0, 0, k == 0, true);
    let all = table_rows(ts, ts.len());
    let before = children_rows(cs, n, 0, 0, true);
    lemma_table_block(ts, k);
    assert(all.subrange(base as int, (base + own.len()) as int) == own);
    assert(children_rows(cs, cs.len(), 0, 0, true) == before + below);
    assert(own == seq![crate::table::group_row(ts[k]->Group_0, 0, 0, k == 0, true)] + children_rows(
        cs,
        cs.len(),
        0,
        0,
        true,
    ));
    assert(own[1 + before.len() as int + j] == below[j]);
    assert(all[base + 1 + before.len() as int + j] == own[1 + before.len() as int + j]);
    lemma_tree_rows_blank_before(cs.last(), 1, 1, false, true);
    assert(blank_at(below[j][0].text, 0));
}

} // verus!
