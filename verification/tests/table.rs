use picobench::{
    column_widths, layout, print_tree, print_tree_lines, table, BenchmarkSummary, BenchmarkTree,
    Cell, CellStyle, ChangeSummary, Color,
};

fn summary(path: &str, iters: u64, change: ChangeSummary) -> BenchmarkSummary {
    BenchmarkSummary {
        path: path.split("::").map(|s| s.to_string()).collect(),
        lower: "1.000ms".to_string(),
        mean: "2.000ms".to_string(),
        upper: "3.000ms".to_string(),
        change,
        iters,
    }
}

fn texts(rows: &[Vec<Cell>]) -> Vec<Vec<String>> {
    rows.iter().map(|r| r.iter().map(|c| c.text.clone()).collect()).collect()
}

fn shape(trees: &[BenchmarkTree]) -> String {
    let mut out = String::new();
    for t in trees {
        match t {
            BenchmarkTree::Benchmark(r) => {
                out.push_str(&r.path.join("::"));
                out.push(' ');
            }
            BenchmarkTree::Group(name, children) => {
                out.push_str(name);
                out.push('(');
                out.push_str(&shape(children));
                out.push_str(") ");
            }
        }
    }
    out
}

#[test]
fn print_tree_lines_draws_the_branches() {
    assert_eq!(print_tree_lines(0..0, true, "top"), "top");
    assert_eq!(print_tree_lines(0..1, true, "x"), "╰─ x");
    assert_eq!(print_tree_lines(0..1, false, "x"), "├─ x");
    assert_eq!(print_tree_lines(1..3, true, "x"), "   │  ╰─ x");
    assert_eq!(print_tree_lines(0..3, false, "x"), "│  │  ├─ x");
    assert_eq!(print_tree_lines(3..3, false, ""), "      ├─ ");
}

#[test]
fn cells_carry_their_style() {
    let c = Cell::new("t".to_string());
    assert!(c.right);
    assert_eq!(c.style, CellStyle { bold: false, dim: false, color: Color::Plain });
    let c = c.left().bold().red();
    assert!(!c.right);
    assert_eq!(c.style, CellStyle { bold: true, dim: false, color: Color::Red });
    let c = Cell::new("u".to_string()).dim().green();
    assert_eq!(c.style, CellStyle { bold: false, dim: true, color: Color::Green });
}

#[test]
fn benchmarks_group_by_path() {
    let results = vec![
        summary("wait::spin::fixed_5", 1, ChangeSummary::NoBaseline),
        summary("nothing", 2, ChangeSummary::NoBaseline),
        summary("mul::mul_1000", 3, ChangeSummary::NoBaseline),
        summary("wait::busy::fixed_5", 4, ChangeSummary::NoBaseline),
        summary("almost_nothing", 5, ChangeSummary::NoBaseline),
        summary("wait::busy::random", 6, ChangeSummary::NoBaseline),
        summary("mul::mul_1", 7, ChangeSummary::NoBaseline),
    ];
    let trees = BenchmarkTree::from(results);
    assert_eq!(
        shape(&trees),
        "almost_nothing nothing mul(mul_1 mul_1000 ) wait(busy(fixed_5 random ) spin(fixed_5 ) ) "
    );
}

#[test]
fn single_segment_paths_sort_by_name() {
    let results = vec![
        summary("b", 1, ChangeSummary::NoBaseline),
        summary("a", 2, ChangeSummary::NoBaseline),
        summary("B", 3, ChangeSummary::NoBaseline),
        summary("ab", 4, ChangeSummary::NoBaseline),
    ];
    let trees = BenchmarkTree::from(results);
    assert_eq!(shape(&trees), "B a ab b ");
}

#[test]
fn table_draws_the_tree_with_titles() {
    let results = vec![
        summary("wait::busy::fixed_5", 12_345, ChangeSummary::Insignificant("+0.50%".to_string())),
        summary("wait::spin", 7, ChangeSummary::Slower("+12.00%".to_string())),
        summary("solo", 10, ChangeSummary::Faster("-3.00%".to_string())),
    ];
    let rows = table(results);
    assert_eq!(
        texts(&rows),
        vec![
            vec!["solo", "1.000ms", "2.000ms", "3.000ms", "-3.00%", "10"],
            vec!["wait"],
            vec!["├─ spin", "1.000ms", "2.000ms", "3.000ms", "+12.00%", "7"],
            vec!["╰─ busy"],
            vec!["   ╰─ fixed_5", "1.000ms", "2.000ms", "3.000ms", "+0.50%", "12.3k"],
        ]
    );
    assert_eq!(rows[0][2].style.bold, true);
    assert_eq!(rows[0][4].style, CellStyle { bold: true, dim: false, color: Color::Green });
    assert_eq!(rows[4][4].style, CellStyle { bold: false, dim: true, color: Color::Plain });
    assert_eq!(rows[2][4].style, CellStyle { bold: true, dim: false, color: Color::Red });
    assert!(!rows[1][0].right);
}

#[test]
fn first_group_gets_the_column_titles() {
    let results = vec![summary("g::x", 1, ChangeSummary::NoBaseline)];
    let rows = table(results);
    assert_eq!(
        texts(&rows),
        vec![
            vec!["g", "lower", "mean", "upper", "change", "iters"],
            vec!["╰─ x", "1.000ms", "2.000ms", "3.000ms", "", "1"],
        ]
    );
    assert!(rows[0][0].style.bold);
    assert!(rows[0][1].style.dim);
}

#[test]
fn print_tree_of_a_leaf_is_one_row() {
    let tree = BenchmarkTree::Benchmark(summary("a::b", 99, ChangeSummary::NoBaseline));
    let rows = print_tree(tree, 2..4, false, false);
    assert_eq!(
        texts(&rows),
        vec![vec!["      │  ├─ a::b", "1.000ms", "2.000ms", "3.000ms", "", "99"]]
    );
}

#[test]
fn widths_and_layout_line_the_columns_up() {
    let rows = vec![
        vec![Cell::new("ab".to_string()).left(), Cell::new("x".to_string())],
        vec![Cell::new("a".to_string()).left()],
        vec![Cell::new("é".to_string()).left(), Cell::new("long".to_string()), Cell::new("z".to_string())],
    ];
    assert_eq!(column_widths(&rows), vec![2, 4]);
    let laid = layout(rows);
    assert_eq!(
        texts(&laid),
        vec![vec!["ab", "   x"], vec!["a "], vec!["é ", "long"]]
    );
    assert!(column_widths(&Vec::new()).is_empty());
}

#[test]
fn equal_and_empty_paths_keep_every_benchmark() {
    let mut empty = summary("x", 1, ChangeSummary::NoBaseline);
    empty.path = Vec::new();
    let results = vec![
        summary("g::a", 2, ChangeSummary::NoBaseline),
        summary("same", 3, ChangeSummary::NoBaseline),
        empty,
        summary("same", 4, ChangeSummary::NoBaseline),
        summary("g::a", 5, ChangeSummary::NoBaseline),
    ];
    let trees = BenchmarkTree::from(results);
    assert_eq!(shape(&trees), " same same g(a a ) ");
    let iters: Vec<u64> = match &trees[..] {
        [BenchmarkTree::Benchmark(e), BenchmarkTree::Benchmark(s1), BenchmarkTree::Benchmark(s2), BenchmarkTree::Group(_, c)] => {
            let mut v = vec![e.iters, s1.iters, s2.iters];
            for t in c {
                if let BenchmarkTree::Benchmark(r) = t {
                    v.push(r.iters);
                }
            }
            v
        }
        _ => panic!("unexpected shape"),
    };
    assert_eq!(iters, vec![1, 3, 4, 2, 5]);
}

#[test]
fn is_last_changes_only_the_branch_character() {
    for (start, end) in [(0usize, 1usize), (0, 3), (2, 4), (4, 4)] {
        let a: Vec<char> = print_tree_lines(start..end, true, "name").chars().collect();
        let b: Vec<char> = print_tree_lines(start..end, false, "name").chars().collect();
        assert_eq!(a.len(), b.len());
        let k = 3 * (end - 1);
        assert_eq!(a[k], '╰');
        assert_eq!(b[k], '├');
        for i in 0..a.len() {
            if i != k {
                assert_eq!(a[i], b[i]);
            }
        }
    }
}

/// Checks every level of `trees`: benchmarks before groups, benchmarks
/// sorted with at most one segment, group names increasing, no empty group.
fn check_levels(trees: &[BenchmarkTree]) {
    let mut seen_group = false;
    let mut last_path: Option<Vec<String>> = None;
    let mut last_name: Option<String> = None;
    for t in trees {
        match t {
            BenchmarkTree::Benchmark(r) => {
                assert!(!seen_group);
                assert!(r.path.len() <= 1);
                if let Some(p) = &last_path {
                    assert!(p <= &r.path);
                }
                last_path = Some(r.path.clone());
            }
            BenchmarkTree::Group(name, children) => {
                seen_group = true;
                if let Some(n) = &last_name {
                    assert!(n < name);
                }
                last_name = Some(name.clone());
                assert!(!children.is_empty());
                check_levels(children);
            }
        }
    }
}

#[test]
fn every_level_of_the_trees_is_in_order() {
    let results = vec![
        summary("z::y::x::w", 1, ChangeSummary::NoBaseline),
        summary("b::a", 2, ChangeSummary::NoBaseline),
        summary("z", 3, ChangeSummary::NoBaseline),
        summary("a::b::c", 4, ChangeSummary::NoBaseline),
        summary("z::y", 5, ChangeSummary::NoBaseline),
        summary("a", 6, ChangeSummary::NoBaseline),
        summary("b::a::c", 7, ChangeSummary::NoBaseline),
        summary("a::b", 8, ChangeSummary::NoBaseline),
    ];
    let trees = BenchmarkTree::from(results);
    check_levels(&trees);
    assert_eq!(shape(&trees), "a z a(b b(c ) ) b(a a(c ) ) z(y y(x(w ) ) ) ");
}

#[test]
fn reordering_results_with_distinct_paths_gives_the_same_trees() {
    let paths = ["z::y::x", "b::a", "z", "a::b::c", "z::y", "a", "b::a::c", "a::b", "m::n"];
    let make = |order: &[usize]| -> Vec<BenchmarkSummary> {
        order.iter().map(|&i| summary(paths[i], i as u64 + 1, ChangeSummary::NoBaseline)).collect()
    };
    let forward: Vec<usize> = (0..paths.len()).collect();
    let backward: Vec<usize> = (0..paths.len()).rev().collect();
    let shuffled = vec![4, 8, 1, 6, 0, 3, 7, 2, 5];
    let a = texts(&table(make(&forward)));
    assert_eq!(texts(&table(make(&backward))), a);
    assert_eq!(texts(&table(make(&shuffled))), a);
    assert_eq!(shape(&BenchmarkTree::from(make(&shuffled))), shape(&BenchmarkTree::from(make(&forward))));
}
