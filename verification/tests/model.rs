//! Tests of classification, selection, summaries, export, and the
//! session lifecycle.

use calibration_report::export::chart_bounds;
use calibration_report::export::chart_series;
use calibration_report::export::export_csv;
use calibration_report::export::theme_colors;
use calibration_report::export::ExportKind;
use calibration_report::select::filter_matches;
use calibration_report::session::Session;
use calibration_report::summary::PercentChange;

const EXAMPLE: &str = "Iteration,Error:X,Value:X,Error:Y\n0,2.0,10.0,-1.0\n1,1.0,11.0,-0.5\n";

fn loaded(text: &str) -> Session {
    let mut s = Session::new();
    assert!(s.load_text(text));
    s
}

fn bases_of(s: &Session) -> Vec<String> {
    s.schema.variables.iter().map(|v| v.base.clone()).collect()
}

#[test]
fn worked_example() {
    let s = loaded(EXAMPLE);
    // The dataset: one record per row, in order, with its iteration.
    assert_eq!(s.dataset.records.len(), 2);
    assert_eq!(s.dataset.records[0].iteration, 0);
    assert_eq!(s.dataset.records[1].iteration, 1);
    // The registry.
    assert_eq!(bases_of(&s), vec!["X".to_string(), "Y".to_string()]);
    assert!(s.schema.has_error_column("X"));
    assert!(s.schema.has_value_column("X"));
    assert!(s.schema.has_error_column("Y"));
    assert!(!s.schema.has_value_column("Y"));
    assert_eq!(
        s.schema.get_error_column_name("X").as_deref(),
        Some("Error:X")
    );
    assert_eq!(s.schema.get_value_column_name("Y"), None);
    // The final-error ranking, descending by magnitude.
    assert_eq!(s.ranking.len(), 2);
    assert_eq!(s.ranking[0].column.as_str(), "Error:X");
    assert_eq!(s.ranking[0].magnitude, 1_000_000_000);
    assert_eq!(s.ranking[1].column.as_str(), "Error:Y");
    assert_eq!(s.ranking[1].magnitude, 500_000_000);
    // The total-error trend.
    assert_eq!(s.trend.len(), 2);
    assert_eq!(s.trend[0].iteration, 0);
    assert_eq!(s.trend[0].total, 3_000_000_000);
    assert_eq!(s.trend[1].iteration, 1);
    assert_eq!(s.trend[1].total, 1_500_000_000);
    // The percent change: (3.0 - 1.5) / 3.0 * 100 = 50.0.
    match s.percent {
        PercentChange::Ratio {
            negative,
            delta,
            baseline,
        } => {
            assert!(!negative);
            assert_eq!(delta, 1_500_000_000);
            assert_eq!(baseline, 3_000_000_000);
            assert_eq!(100.0 * delta as f64 / baseline as f64, 50.0);
        }
        PercentChange::Undefined => panic!("expected a defined percent change"),
    }
}

#[test]
fn registry_is_sorted_and_deduplicated() {
    let s = loaded("Iteration,Error:b,Value:A,Error:A,Value: b \n0,1,2,3,4\n");
    // "Error:A" and "Value:A" collapse; " b " trims to "b"; sorted by
    // code point, so "A" comes before "b".
    assert_eq!(bases_of(&s), vec!["A".to_string(), "b".to_string()]);
}

#[test]
fn columns_come_from_first_record_not_header() {
    // The first record's empty cell hides the column entirely.
    let s = loaded("Iteration,Error:X,Error:Y\n0,,1.0\n1,2.0,3.0\n");
    assert_eq!(s.schema.error_columns.len(), 1);
    assert_eq!(s.schema.error_columns[0].as_str(), "Error:Y");
    assert_eq!(bases_of(&s), vec!["Y".to_string()]);
}

#[test]
fn ranking_ties_keep_column_order() {
    let s = loaded("Iteration,Error:B,Error:A\n0,1.0,1.0\n");
    assert_eq!(s.ranking[0].column.as_str(), "Error:B");
    assert_eq!(s.ranking[1].column.as_str(), "Error:A");
}

#[test]
fn ranking_uses_last_record_only() {
    let s = loaded("Iteration,Error:A,Error:B\n0,9.0,1.0\n1,1.0,-3.0\n");
    assert_eq!(s.ranking[0].column.as_str(), "Error:B");
    assert_eq!(s.ranking[0].magnitude, 3_000_000_000);
    assert_eq!(s.ranking[1].column.as_str(), "Error:A");
    assert_eq!(s.ranking[1].magnitude, 1_000_000_000);
}

#[test]
fn trend_treats_missing_as_zero() {
    let s = loaded("Iteration,Error:A,Error:B\n0,1.0,2.0\n1,,2.5\n");
    assert_eq!(s.trend[0].total, 3_000_000_000);
    assert_eq!(s.trend[1].total, 2_500_000_000);
}

#[test]
fn percent_change_zero_baseline_is_placeholder() {
    let s = loaded("Iteration,Error:X\n0,0\n1,5.0\n");
    assert_eq!(s.percent, PercentChange::Undefined);
}

#[test]
fn percent_change_can_be_negative() {
    let s = loaded("Iteration,Error:X\n0,1.0\n1,2.0\n");
    assert_eq!(
        s.percent,
        PercentChange::Ratio {
            negative: true,
            delta: 1_000_000_000,
            baseline: 1_000_000_000,
        }
    );
}

#[test]
fn filter_is_case_insensitive_contains() {
    assert!(filter_matches("X", "x"));
    assert!(filter_matches("x", "X"));
    assert!(!filter_matches("Y", "x"));
    assert!(filter_matches("X", "x,y"));
    assert!(filter_matches("Y", "x,y"));
    assert!(filter_matches("TemperatureX", "x"));
    assert!(filter_matches("anything", ""));
    // Terms are trimmed before matching.
    assert!(filter_matches("Y", "x, y"));
}

#[test]
fn select_all_filtered_then_unselect_all_is_zero() {
    let mut s = loaded(EXAMPLE);
    s.set_filter("x".to_string());
    s.select_all_filtered();
    assert_eq!(s.selection.selected, vec![true, false]);
    s.unselect_all();
    assert_eq!(s.selection.selected, vec![false, false]);
}

#[test]
fn select_then_unselect_filtered_restores_flags() {
    let mut s = loaded(EXAMPLE);
    // Pre-operation: only the hidden variable Y is selected.
    s.set_selected(1, true);
    let before = s.selection.selected.clone();
    s.set_filter("x".to_string());
    s.select_all_filtered();
    assert_eq!(s.selection.selected, vec![true, true]);
    s.unselect_all_filtered();
    assert_eq!(s.selection.selected, before);
}

#[test]
fn unselect_all_ignores_filter() {
    let mut s = loaded(EXAMPLE);
    s.set_selected(0, true);
    s.set_selected(1, true);
    s.set_filter("x".to_string());
    s.unselect_all();
    assert_eq!(s.selection.selected, vec![false, false]);
}

#[test]
fn stale_selection_index_is_a_no_op() {
    let mut s = loaded(EXAMPLE);
    s.set_selected(99, true);
    assert_eq!(s.selection.selected, vec![false, false]);
}

#[test]
fn selection_change_signal_is_one_shot() {
    let mut s = loaded(EXAMPLE);
    assert!(!s.selection_changed());
    s.set_selected(0, true);
    assert!(s.selection_changed());
    assert!(!s.selection_changed());
    s.set_selected(0, false);
    assert!(s.selection_changed());
}

#[test]
fn reload_replaces_everything_and_clears_selection() {
    let mut s = loaded(EXAMPLE);
    s.set_selected(0, true);
    s.set_selected(1, true);
    assert!(s.load_text("Iteration,Error:A\n0,4.0\n"));
    assert_eq!(bases_of(&s), vec!["A".to_string()]);
    assert_eq!(s.schema.error_columns, vec!["Error:A".to_string()]);
    assert!(s.schema.value_columns.is_empty());
    assert_eq!(s.selection.selected, vec![false]);
    assert_eq!(s.ranking.len(), 1);
    assert_eq!(s.trend.len(), 1);
    assert_eq!(s.dataset.records.len(), 1);
}

#[test]
fn failed_load_keeps_previous_generation() {
    let mut s = loaded(EXAMPLE);
    s.set_selected(0, true);
    assert!(!s.load_text("Iteration,Error:X\n0,bad\n"));
    assert_eq!(bases_of(&s), vec!["X".to_string(), "Y".to_string()]);
    assert_eq!(s.dataset.records.len(), 2);
    assert_eq!(s.selection.selected, vec![true, false]);
    assert_eq!(
        s.status.as_deref(),
        Some("Failed to parse CSV record at line 2")
    );
}

#[test]
fn empty_dataset_message() {
    let mut s = Session::new();
    assert!(!s.load_text("Iteration,Error:X\n"));
    assert_eq!(s.status.as_deref(), Some("No records found in file"));
}

#[test]
fn loading_same_text_twice_matches_structurally() {
    let a = loaded(EXAMPLE);
    let b = loaded(EXAMPLE);
    assert_eq!(a.dataset, b.dataset);
    assert_eq!(a.schema, b.schema);
    assert_eq!(a.selection, b.selection);
    assert_eq!(a.ranking, b.ranking);
    assert_eq!(a.trend, b.trend);
    assert_eq!(a.percent, b.percent);
}

#[test]
fn export_error_csv() {
    let mut s = loaded(EXAMPLE);
    s.select_all_filtered();
    let text = export_csv(&s.dataset, &s.schema, &s.selection.selected, ExportKind::Error);
    assert_eq!(
        text.as_str(),
        "Iteration,X_Error,Y_Error\n0,2,-1\n1,1,-0.5\n"
    );
}

#[test]
fn export_value_csv_skips_missing_kind() {
    let mut s = loaded(EXAMPLE);
    s.select_all_filtered();
    let text = export_csv(&s.dataset, &s.schema, &s.selection.selected, ExportKind::Value);
    assert_eq!(text.as_str(), "Iteration,X_Value\n0,10\n1,11\n");
}

#[test]
fn export_blank_cell_for_absent_value() {
    let mut s = loaded("Iteration,Error:X\n0,1.0\n1,\n");
    s.select_all_filtered();
    let text = export_csv(&s.dataset, &s.schema, &s.selection.selected, ExportKind::Error);
    assert_eq!(text.as_str(), "Iteration,X_Error\n0,1\n1,\n");
}

#[test]
fn export_respects_selection() {
    let mut s = loaded(EXAMPLE);
    s.set_selected(1, true);  // only Y
    let text = export_csv(&s.dataset, &s.schema, &s.selection.selected, ExportKind::Error);
    assert_eq!(text.as_str(), "Iteration,Y_Error\n0,-1\n1,-0.5\n");
}

#[test]
fn chart_series_and_palette() {
    let mut s = loaded(EXAMPLE);
    s.select_all_filtered();
    let series = chart_series(&s.dataset, &s.schema, &s.selection.selected, ExportKind::Error);
    assert_eq!(series.len(), 2);
    assert_eq!(series[0].name.as_str(), "X");
    assert_eq!(series[0].color, (255, 0, 0));
    assert_eq!(series[1].name.as_str(), "Y");
    assert_eq!(series[1].color, (0, 0, 255));
    assert_eq!(series[0].points.len(), 2);
    assert_eq!(series[0].points[0].0, 0);
    assert_eq!(series[0].points[0].1.nanos, 2_000_000_000);
    // Value-kind series: Y has no value column.
    let vs = chart_series(&s.dataset, &s.schema, &s.selection.selected, ExportKind::Value);
    assert_eq!(vs.len(), 1);
    assert_eq!(vs[0].name.as_str(), "X");
}

#[test]
fn chart_bounds_add_a_tenth_margin() {
    let mut s = loaded("Iteration,Value:X\n0,0\n1,10.0\n");
    s.select_all_filtered();
    let series = chart_series(&s.dataset, &s.schema, &s.selection.selected, ExportKind::Value);
    let b = chart_bounds(&series, s.dataset.records.len()).unwrap();
    assert_eq!(b.x_min, 0);
    assert_eq!(b.x_max, 2);
    assert_eq!(b.y_min_nanos, -1_000_000_000);
    assert_eq!(b.y_max_nanos, 11_000_000_000);
}

#[test]
fn chart_bounds_need_points() {
    let s = loaded(EXAMPLE);
    let series = chart_series(&s.dataset, &s.schema, &s.selection.selected, ExportKind::Error);
    assert!(series.is_empty());
    assert_eq!(chart_bounds(&series, 2), None);
}

#[test]
fn theme_color_schemes() {
    let dark = theme_colors(true);
    assert_eq!(dark.background, (32, 32, 32));
    assert_eq!(dark.text, (255, 255, 255));
    assert_eq!(dark.grid, (64, 64, 64));
    let light = theme_colors(false);
    assert_eq!(light.background, (255, 255, 255));
    assert_eq!(light.text, (0, 0, 0));
    assert_eq!(light.grid, (128, 128, 128));
}
