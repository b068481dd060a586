use algraf_render::categories::{
    categorical_domain, count_by, facet_categories, mark_budget_overrun, CountRow,
};
use algraf_render::stats::{jitter_bits, StepDirection, StepVerticesOptions};
use algraf_render::steps::step_vertices;

fn cells(values: &[Option<&str>]) -> Vec<Option<String>> {
    values.iter().map(|v| v.map(|s| s.to_string())).collect()
}

fn row(key: &str, inner: Option<&str>, count: usize, first_row: usize, inner_first_row: Option<usize>) -> CountRow {
    CountRow {
        key: key.to_string(),
        inner_key: inner.map(|s| s.to_string()),
        count,
        first_row,
        inner_first_row,
    }
}

#[test]
fn step_vertices_turn_horizontally_first() {
    let xs = [Some(1.0), Some(2.0), None, Some(4.0), Some(5.0)];
    let ys = [Some(10.0), Some(20.0), Some(30.0), Some(40.0), Some(50.0)];
    let v = step_vertices(&xs, &ys, StepVerticesOptions::default());
    assert_eq!(v.xs, vec![Some(1.0), Some(2.0), Some(2.0), None, Some(4.0), Some(5.0), Some(5.0)]);
    assert_eq!(v.ys, vec![Some(10.0), Some(10.0), Some(20.0), None, Some(40.0), Some(40.0), Some(50.0)]);
    assert_eq!(v.groups, vec![Some(0), Some(0), Some(0), None, Some(1), Some(1), Some(1)]);
}

#[test]
fn step_vertices_turn_vertically_first() {
    let xs = [Some(1), Some(2), Some(3)];
    let ys = [Some(10), Some(20), Some(15)];
    let v = step_vertices(&xs, &ys, StepVerticesOptions { direction: StepDirection::Vh });
    assert_eq!(v.xs, vec![Some(1), Some(1), Some(2), Some(2), Some(3)]);
    assert_eq!(v.ys, vec![Some(10), Some(20), Some(20), Some(15), Some(15)]);
    assert_eq!(v.groups, vec![Some(0); 5]);
}

#[test]
fn gaps_emit_one_sentinel_between_runs() {
    let xs = [None, Some(1), None, None, Some(2), Some(3), None];
    let ys = [Some(0), Some(1), Some(1), None, Some(2), None, None];
    let v = step_vertices(&xs, &ys, StepVerticesOptions::default());
    assert_eq!(v.xs, vec![Some(1), None, Some(2), None]);
    assert_eq!(v.ys, vec![Some(1), None, Some(2), None]);
    assert_eq!(v.groups, vec![Some(0), None, Some(1), None]);
    let empty = step_vertices::<i32>(&[], &[], StepVerticesOptions::default());
    assert!(empty.xs.is_empty() && empty.ys.is_empty() && empty.groups.is_empty());
}

#[test]
fn categorical_domain_keeps_first_appearance_order() {
    let c = cells(&[Some("b"), None, Some("a"), Some("b"), Some("c"), Some("a")]);
    assert_eq!(categorical_domain(&c), vec!["b", "a", "c"]);
    assert_eq!(categorical_domain(&cells(&[None, None])), Vec::<String>::new());
}

#[test]
fn count_by_one_column() {
    let c = cells(&[Some("b"), None, Some("a"), Some("b"), Some("b")]);
    assert_eq!(count_by(&c, None), vec![row("b", None, 3, 0, None), row("a", None, 1, 2, None)]);
    let total: usize = count_by(&c, None).iter().map(|r| r.count).sum();
    assert_eq!(total, 4);
}

#[test]
fn count_by_two_columns_lists_every_pair() {
    let outer = cells(&[Some("x"), Some("y"), Some("x"), Some("x"), None]);
    let inner = cells(&[Some("p"), Some("q"), Some("p"), None, Some("q")]);
    assert_eq!(
        count_by(&outer, Some(&inner)),
        vec![
            row("x", Some("p"), 2, 0, Some(0)),
            row("x", Some("q"), 0, 0, Some(1)),
            row("y", Some("p"), 0, 1, Some(0)),
            row("y", Some("q"), 1, 1, Some(1)),
        ]
    );
}

#[test]
fn jitter_bits_are_deterministic_53_bit_values() {
    assert_eq!(jitter_bits(0, 0), 7956156453446585);
    assert_eq!(jitter_bits(1, 0), 5103132997656651);
    assert_eq!(jitter_bits(5, 17), 7038781907180225);
    // Row and salt wrap around together.
    assert_eq!(jitter_bits(u64::MAX, 1), jitter_bits(0, 0));
    assert!(jitter_bits(123, 456) < 1 << 53);
}

#[test]
fn facets_always_have_a_panel() {
    assert_eq!(facet_categories(&cells(&[None, None])), vec![""]);
    assert_eq!(facet_categories(&cells(&[Some("b"), Some("a"), Some("b")])), vec!["b", "a"]);
}

#[test]
fn mark_budget_estimates_matches_times_layers() {
    let matches = vec![vec![1, 2], vec![3]];
    assert_eq!(mark_budget_overrun(&[(2, 1), (0, 0)], &matches, Some(5)), Some(9));
    assert_eq!(mark_budget_overrun(&[(2, 1), (0, 0)], &matches, Some(9)), None);
    assert_eq!(mark_budget_overrun(&[(2, 1)], &matches, None), None);
    assert_eq!(mark_budget_overrun(&[], &matches, Some(2)), Some(3));
    assert_eq!(mark_budget_overrun(&[(1, 4)], &[], Some(0)), None);
    let huge = vec![vec![0; 4]];
    assert_eq!(mark_budget_overrun(&[(usize::MAX / 2, 0)], &huge, Some(7)), Some(usize::MAX));
}

#[test]
fn count_by_keys_come_from_their_first_rows_in_the_column_type() {
    let ints: Vec<i64> = vec![1, 1, 2];
    let c: Vec<Option<String>> = ints.iter().map(|v| Some(v.to_string())).collect();
    let rows = count_by(&c, None);
    assert_eq!(rows, vec![row("1", None, 2, 0, None), row("2", None, 1, 2, None)]);
    let typed: Vec<(i64, usize)> = rows.iter().map(|r| (ints[r.first_row], r.count)).collect();
    assert_eq!(typed, vec![(1, 2), (2, 1)]);
}
