use reconnect::Column;
use reconnect::Record;
use reconnect::csv_api::CompareError;
use reconnect::csv_api::CsvApi;

fn cell(rowid: &str, name: &str, value: &str) -> Column {
    Column { rowid: rowid.to_string(), name: name.to_string(), value: value.to_string() }
}

#[test]
fn test_compare_equal() {
    let left = vec![cell("1", "a", "x"), cell("1", "b", "y")];
    let right = vec![cell("1", "a", "x"), cell("1", "b", "y")];
    let differences = CsvApi::compare_csv(left, right).unwrap();
    assert!(differences.is_empty());
}

#[test]
fn test_compare_reports_changes() {
    let left = vec![cell("1", "a", "x"), cell("1", "b", "y"), cell("2", "a", "z")];
    let right = vec![cell("1", "a", "x"), cell("1", "b", "changed"), cell("2", "a", "z")];
    let differences = CsvApi::compare_csv(left, right).unwrap();
    assert_eq!(differences.len(), 1);
    assert_eq!(differences[0].row_id, "1");
    assert_eq!(differences[0].col_name, "b");
    assert_eq!(differences[0].left_value, "y");
    assert_eq!(differences[0].right_value, "changed");
}

#[test]
fn test_alignment_violation() {
    // Mismatched cell counts must hit the alignment-violation path, never a
    // silent partial diff.
    let left = vec![cell("1", "a", "x"), cell("1", "b", "y")];
    let right = vec![cell("1", "a", "x")];
    let result = CsvApi::compare_csv(left, right);
    assert_eq!(result.unwrap_err(), CompareError::AlignmentViolation);
}

#[test]
fn test_alignment_violation_same_padded_size() {
    // Counts that pad to the same power of two are still misaligned.
    let left = vec![cell("1", "a", "x"), cell("1", "b", "y"), cell("1", "c", "z")];
    let right = vec![
        cell("1", "a", "x"),
        cell("1", "b", "y"),
        cell("1", "c", "z"),
        cell("1", "d", "w"),
    ];
    let result = CsvApi::compare_csv(left, right);
    assert_eq!(result.unwrap_err(), CompareError::AlignmentViolation);
}

#[test]
fn test_collect_columns() {
    let records = vec![
        Record { rowid: "1".to_string(), data: vec![cell("1", "a", "x"), cell("1", "b", "y")] },
        Record { rowid: "2".to_string(), data: vec![cell("2", "a", "z")] },
    ];
    let columns = CsvApi::collect_columns(&records);
    assert_eq!(columns.len(), 3);
    assert_eq!(columns[0].name, "a");
    assert_eq!(columns[1].name, "b");
    assert_eq!(columns[2].rowid, "2");
}
