//! Tests of the value model and the record parser.

use calibration_report::num::parse_u64;
use calibration_report::scalar::parse_scalar;
use calibration_report::scalar::render_scalar;
use calibration_report::scalar::Scalar;
use calibration_report::table::parse_table;
use calibration_report::table::LoadError;

fn sc(negative: bool, nanos: u64) -> Scalar {
    Scalar { negative, nanos }
}

#[test]
fn scalar_plain_decimals() {
    assert_eq!(parse_scalar("2.0"), Some(sc(false, 2_000_000_000)));
    assert_eq!(parse_scalar("-0.5"), Some(sc(true, 500_000_000)));
    assert_eq!(parse_scalar("+10.25"), Some(sc(false, 10_250_000_000)));
    assert_eq!(parse_scalar(".5"), Some(sc(false, 500_000_000)));
    assert_eq!(parse_scalar("5."), Some(sc(false, 5_000_000_000)));
    assert_eq!(parse_scalar("0"), Some(sc(false, 0)));
}

#[test]
fn scalar_zero_is_canonical() {
    assert_eq!(parse_scalar("-0.0"), Some(sc(false, 0)));
    assert_eq!(parse_scalar("-0e99999999999999999999"), Some(sc(false, 0)));
}

#[test]
fn scalar_exponents() {
    assert_eq!(parse_scalar("1e3"), Some(sc(false, 1_000_000_000_000)));
    assert_eq!(parse_scalar("1e-3"), Some(sc(false, 1_000_000)));
    assert_eq!(parse_scalar("-2.5E2"), Some(sc(true, 250_000_000_000)));
    assert_eq!(parse_scalar("1500e-1"), Some(sc(false, 150_000_000_000)));
}

#[test]
fn scalar_range_edges() {
    // u64::MAX billionths exactly, then one billionth more.
    assert_eq!(
        parse_scalar("18446744073.709551615"),
        Some(sc(false, u64::MAX))
    );
    assert_eq!(parse_scalar("18446744073.709551616"), None);
    // Finer than one billionth.
    assert_eq!(parse_scalar("0.0000000001"), None);
    assert_eq!(parse_scalar("0.0000000010"), Some(sc(false, 1)));
    assert_eq!(parse_scalar("1e20"), None);
}

#[test]
fn scalar_malformed() {
    assert_eq!(parse_scalar(""), None);
    assert_eq!(parse_scalar("abc"), None);
    assert_eq!(parse_scalar("."), None);
    assert_eq!(parse_scalar("1e"), None);
    assert_eq!(parse_scalar("1e+"), None);
    assert_eq!(parse_scalar("1.2.3"), None);
    assert_eq!(parse_scalar(" 1.0"), None);
    assert_eq!(parse_scalar("NaN"), None);
    assert_eq!(parse_scalar("inf"), None);
}

#[test]
fn scalar_rendering() {
    assert_eq!(render_scalar(&sc(false, 2_000_000_000)).as_str(), "2");
    assert_eq!(render_scalar(&sc(false, 1_500_000_000)).as_str(), "1.5");
    assert_eq!(render_scalar(&sc(true, 500_000_000)).as_str(), "-0.5");
    assert_eq!(render_scalar(&sc(false, 0)).as_str(), "0");
    assert_eq!(render_scalar(&sc(false, 1)).as_str(), "0.000000001");
    assert_eq!(render_scalar(&sc(true, 10_250_000_000)).as_str(), "-10.25");
}

#[test]
fn iteration_numbers() {
    assert_eq!(parse_u64("0"), Some(0));
    assert_eq!(parse_u64("+3"), Some(3));
    assert_eq!(parse_u64("007"), Some(7));
    assert_eq!(parse_u64("18446744073709551615"), Some(u64::MAX));
    assert_eq!(parse_u64("18446744073709551616"), None);
    assert_eq!(parse_u64("-1"), None);
    assert_eq!(parse_u64("3.5"), None);
    assert_eq!(parse_u64(""), None);
    assert_eq!(parse_u64(" 3"), None);
}

#[test]
fn table_basic() {
    let ds = parse_table("Iteration,Error:X\n0,2.0\n1,1.0\n").unwrap();
    assert_eq!(ds.records.len(), 2);
    assert_eq!(ds.records[0].iteration, 0);
    assert_eq!(ds.records[0].fields.len(), 1);
    assert_eq!(ds.records[0].fields[0].name.as_str(), "Error:X");
    assert_eq!(ds.records[0].fields[0].value, sc(false, 2_000_000_000));
    assert_eq!(ds.records[1].iteration, 1);
}

#[test]
fn table_crlf_and_blank_lines() {
    let ds = parse_table("Iteration,Error:X\r\n\r\n0,2.0\r\n\r\n1,1.0\r\n").unwrap();
    assert_eq!(ds.records.len(), 2);
    assert_eq!(ds.records[1].iteration, 1);
}

#[test]
fn table_empty_cell_means_absent() {
    let ds = parse_table("Iteration,Error:X\n0,1.0\n1,\n").unwrap();
    assert_eq!(ds.records[0].fields.len(), 1);
    assert_eq!(ds.records[1].fields.len(), 0);
}

#[test]
fn table_parse_error_reports_line() {
    assert_eq!(
        parse_table("Iteration,Error:X\n0,abc\n"),
        Err(LoadError::Parse { line: 2 })
    );
    assert_eq!(
        parse_table("Iteration,Error:X\n0,1.0\n1,2.0,3.0\n"),
        Err(LoadError::Parse { line: 3 })
    );
    // A blank line does not shift the reported line number.
    assert_eq!(
        parse_table("Iteration,Error:X\n0,1.0\n\nbad,1.0\n"),
        Err(LoadError::Parse { line: 4 })
    );
}

#[test]
fn table_header_failures() {
    assert_eq!(
        parse_table("Time,Error:X\n1,2.0\n"),
        Err(LoadError::Parse { line: 1 })
    );
    assert_eq!(
        parse_table("Iteration,A,A\n0,1,2\n"),
        Err(LoadError::Parse { line: 1 })
    );
}

#[test]
fn table_empty_dataset_is_distinct() {
    assert_eq!(parse_table(""), Err(LoadError::Empty));
    assert_eq!(parse_table("Iteration,Error:X\n"), Err(LoadError::Empty));
    assert_eq!(parse_table("\n\n"), Err(LoadError::Empty));
}

#[test]
fn table_negative_iteration_fails() {
    assert_eq!(
        parse_table("Iteration,Error:X\n-1,2.0\n"),
        Err(LoadError::Parse { line: 2 })
    );
}

#[test]
fn loading_twice_is_equal() {
    let text = "Iteration,Error:X,Value:X,Error:Y\n0,2.0,10.0,-1.0\n1,1.0,11.0,-0.5\n";
    let a = parse_table(text).unwrap();
    let b = parse_table(text).unwrap();
    assert_eq!(a, b);
}
