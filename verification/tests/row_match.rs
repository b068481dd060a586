use algraf_render::row_match::{MatchCell, MatchIndex};
use algraf_render::rows::{render_rows, union_rows};
use algraf_render::temporal::TemporalPrecision;

fn float(v: f64) -> MatchCell {
    MatchCell::Float(v.to_bits())
}

fn integer(v: i64) -> MatchCell {
    MatchCell::Int { value: v, float_bits: (v as f64).to_bits() }
}

fn text(s: &str) -> MatchCell {
    MatchCell::Text(s.to_string())
}

fn epoch() -> MatchCell {
    MatchCell::Temporal { micros: 0, precision: TemporalPrecision::DateTime }
}

/// The child rows matching row `host_row` of a host table given by columns.
fn matched_rows(child: &[Vec<MatchCell>], host: &[Vec<MatchCell>], host_row: usize) -> Vec<usize> {
    let rows = child.first().map_or(0, |c| c.len());
    let index = MatchIndex::build(rows, child.to_vec());
    let key: Vec<MatchCell> = host.iter().map(|column| column[host_row].clone()).collect();
    index.matched_rows(&key)
}

fn excludes_nan_keys() {
    let child = vec![vec![float(f64::NAN), float(1.0)]];
    let host = vec![vec![float(f64::NAN), float(1.0)]];
    assert!(matched_rows(&child, &host, 0).is_empty());
    assert_eq!(matched_rows(&child, &host, 1), vec![1]);
}

fn normalizes_positive_and_negative_zero() {
    let child = vec![vec![float(-0.0)]];
    let host = vec![vec![float(0.0)]];
    assert_eq!(matched_rows(&child, &host, 0), vec![0]);
}

fn filters_large_i64_bucket_collisions() {
    let child = vec![vec![integer(9_007_199_254_740_992), integer(9_007_199_254_740_993)]];
    let host = vec![vec![integer(9_007_199_254_740_993)]];
    assert_eq!(matched_rows(&child, &host, 0), vec![1]);
}

fn preserves_int_float_comparison_semantics() {
    let child = vec![vec![integer(2), integer(3)]];
    let host = vec![vec![float(2.0), float(2.5)]];
    assert_eq!(matched_rows(&child, &host, 0), vec![0]);
    assert!(matched_rows(&child, &host, 1).is_empty());

    let child = vec![vec![float(3.0)]];
    let host = vec![vec![integer(3)]];
    assert_eq!(matched_rows(&child, &host, 0), vec![0]);
}

fn handles_temporal_and_string_composite_keys() {
    let child = vec![vec![epoch(), epoch()], vec![text("a"), text("b")]];
    let host = vec![vec![epoch()], vec![text("b")]];
    assert_eq!(matched_rows(&child, &host, 0), vec![1]);
}

fn requires_all_composite_components() {
    let child = vec![vec![text("A"), text("A")], vec![text("x"), text("y")]];
    let host = vec![vec![text("A")], vec![text("y")]];
    assert_eq!(matched_rows(&child, &host, 0), vec![1]);
}

fn handles_empty_inputs() {
    let child: Vec<Vec<MatchCell>> = vec![Vec::new()];
    let host = vec![vec![text("a")]];
    assert!(matched_rows(&child, &host, 0).is_empty());

    let host_rows = render_rows(1, Some(&[]));
    let matches = host_rows
        .iter()
        .map(|&row| matched_rows(&child, &host, row))
        .collect::<Vec<_>>();
    assert!(matches.is_empty());
    assert!(union_rows(&matches).is_empty());
}

#[test]
fn glyph_plan_match_index_excludes_nan_keys() {
    excludes_nan_keys();
}

#[test]
fn glyph_plan_match_index_normalizes_positive_and_negative_zero() {
    normalizes_positive_and_negative_zero();
}

#[test]
fn glyph_plan_match_index_filters_large_i64_bucket_collisions() {
    filters_large_i64_bucket_collisions();
}

#[test]
fn glyph_plan_match_index_preserves_int_float_comparison_semantics() {
    preserves_int_float_comparison_semantics();
}

#[test]
fn glyph_plan_match_index_handles_temporal_and_string_composite_keys() {
    handles_temporal_and_string_composite_keys();
}

#[test]
fn glyph_plan_match_index_requires_all_composite_components() {
    requires_all_composite_components();
}

#[test]
fn glyph_plan_match_index_handles_empty_inputs() {
    handles_empty_inputs();
}

#[test]
fn inset_plan_match_index_excludes_nan_keys() {
    excludes_nan_keys();
}

#[test]
fn inset_plan_match_index_normalizes_positive_and_negative_zero() {
    normalizes_positive_and_negative_zero();
}

#[test]
fn inset_plan_match_index_filters_large_i64_bucket_collisions() {
    filters_large_i64_bucket_collisions();
}

#[test]
fn inset_plan_match_index_preserves_int_float_comparison_semantics() {
    preserves_int_float_comparison_semantics();
}

#[test]
fn inset_plan_match_index_handles_temporal_and_string_composite_keys() {
    handles_temporal_and_string_composite_keys();
}

#[test]
fn inset_plan_match_index_requires_all_composite_components() {
    requires_all_composite_components();
}

#[test]
fn inset_plan_match_index_handles_empty_inputs() {
    handles_empty_inputs();
}

#[test]
fn no_key_columns_match_every_row() {
    let index = MatchIndex::build(3, Vec::new());
    assert_eq!(index.matched_rows(&[]), vec![0, 1, 2]);
}

#[test]
fn mismatched_kinds_and_missing_cells_never_match() {
    let child = vec![vec![MatchCell::Bool(true), MatchCell::Missing, text("1"), integer(1)]];
    let host = vec![vec![integer(1)]];
    assert_eq!(matched_rows(&child, &host, 0), vec![3]);
    let host = vec![vec![MatchCell::Missing]];
    assert!(matched_rows(&child, &host, 0).is_empty());
    let host = vec![vec![MatchCell::Bool(true)]];
    assert_eq!(matched_rows(&child, &host, 0), vec![0]);
}
