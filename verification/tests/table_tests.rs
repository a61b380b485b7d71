use wisdom::models::column::Column;
use wisdom::models::table::{ColumnData, ColumnState, NumericValue, Table, TableError};
use wisdom::scalar::Real;

fn table_from(content: &str) -> Table {
    Table::from_csv_bytes("data.csv".to_string(), content.as_bytes()).unwrap()
}

fn as_real(x: f64) -> Real {
    Real::from_bits(x.to_bits())
}

fn parse_real(s: &String) -> Option<Real> {
    s.parse::<f64>().ok().map(as_real)
}

#[test]
fn from_csv_reads_headers_and_rows() {
    let table = table_from("age,name\n25,Ali\n30,Ayşe\n");

    match table.column_data("age") {
        Some(ColumnData::Raw(values)) => assert_eq!(
            *values,
            vec![Some("25".to_string()), Some("30".to_string())]
        ),
        _ => panic!("Unexpected result"),
    }

    match table.column_data("name") {
        Some(ColumnData::Raw(values)) => {
            assert_eq!(
                *values,
                vec![Some("Ali".to_string()), Some("Ayşe".to_string())]
            )
        }
        _ => panic!("Unexpected result."),
    }
}

#[test]
fn from_csv_treats_empty_call_as_missing() {
    let table = table_from("age,name\n25,\n,Ayşe\n");

    match table.column_data("age") {
        Some(ColumnData::Raw(values)) => {
            assert_eq!(*values, vec![Some("25".to_string()), None])
        }
        _ => panic!("Unexpected result."),
    }
}

#[test]
fn from_csv_reports_a_malformed_record() {
    let result = Table::from_csv_bytes("data.csv".to_string(), "a,b\n1,2\n3\n".as_bytes());

    match result {
        Err(TableError::RowReadingError(_)) => {}
        _ => panic!("Unexpected result."),
    }
}

#[test]
fn from_csv_collects_repeated_headers_into_one_column() {
    let table = table_from("a,a\n1,2\n3,4\n");

    assert_eq!(table.column_count(), 1);
    match table.column_data("a") {
        Some(ColumnData::Raw(values)) => assert_eq!(
            *values,
            vec![
                Some("1".to_string()),
                Some("2".to_string()),
                Some("3".to_string()),
                Some("4".to_string())
            ]
        ),
        _ => panic!("Unexpected result."),
    }
}

#[test]
fn file_path_returns_source_path() {
    let table = Table::from_csv_bytes("/tmp/source.csv".to_string(), "age,name\n25,Ali\n".as_bytes())
        .unwrap();

    assert_eq!(table.file_path(), "/tmp/source.csv")
}

#[test]
fn row_count_returns_number_of_rows() {
    let table = table_from("age,name\n25,Ali\n30,Ayşe\n40,Mehmet\n");

    assert_eq!(table.row_count(), 3);
}

#[test]
fn row_count_returns_zero_when_no_data_rows() {
    let table = table_from("age,name\n");

    assert_eq!(table.row_count(), 0);
}

#[test]
fn column_count_returns_number_of_columns() {
    let table = table_from("age,name,city\n25,Ali,Istanbul\n");

    assert_eq!(table.column_count(), 3);
}

#[test]
fn element_count_returns_total_elements() {
    let table = table_from("age,name\n25,Ali\n30,Ayşe\n40,Mehmet\n");

    assert_eq!(table.element_count(), 6);
}

#[test]
fn get_column_materializes_raw_column() {
    let mut table = table_from("age,name\n25,Ali\n30,Ayşe\n");

    let column = table.get_column::<i64>("age").unwrap();

    assert_eq!(column.get(0), Some(&Some(25)));
    assert_eq!(column.get(1), Some(&Some(30)));
}

#[test]
fn get_column_fails_when_already_checked_out() {
    let mut table = table_from("age,name\n25,Ali\n");

    let _column = table.get_column::<i64>("age").unwrap();
    let result = table.get_column::<i64>("age");

    match result {
        Err(TableError::ColumnNotAvailable { name }) => assert_eq!(name, "age".to_string()),
        _ => panic!("Unexpected result."),
    }
}

#[test]
fn get_column_fails_when_column_not_found() {
    let mut table = table_from("age,name\n25,Ali\n");

    let result = table.get_column::<i64>("city");

    match result {
        Err(TableError::ColumnNotFound { name }) => assert_eq!(name, "city".to_string()),
        _ => panic!("Unexpected result."),
    }
}

#[test]
fn get_column_fails_with_type_mismatch() {
    let mut table = table_from("age,name\n25,Ali\n");

    let column = table.get_column::<i64>("age").unwrap();
    assert_eq!(column.get(0), Some(&Some(25)));
    table.update_column("age", column).unwrap();

    let result = table.get_column_with::<Real, _>("age", parse_real);
    match result {
        Err(TableError::TypeMismatch { name }) => assert_eq!(name, "age".to_string()),
        _ => panic!("Unexpected result."),
    }

    assert!(table.column_data("age").is_some())
}

#[test]
fn get_column_restores_raw_data_on_parse_failure() {
    let mut table = table_from("age,name\nabc,Ali\n");

    let result = table.get_column::<i64>("age");

    match result {
        Err(TableError::ParseFailed { name, source: _ }) => assert_eq!(name, "age".to_string()),
        _ => panic!("Unexpected result."),
    }

    match table.column_data("age") {
        Some(ColumnData::Raw(values)) => assert_eq!(*values, vec![Some("abc".to_string())]),
        _ => panic!("Unexpected result."),
    }
}

#[test]
fn get_column_with_parses_floats() {
    let mut table = table_from("score,tag\n1.5,a\n,b\n-2,c\n");

    let column = table.get_column_with::<Real, _>("score", parse_real).unwrap();

    assert_eq!(column.get(0), Some(&Some(as_real(1.5))));
    assert_eq!(column.get(1), Some(&None));
    assert_eq!(column.get(2), Some(&Some(as_real(-2.0))));
    assert_eq!(table.column_state("score"), Some(ColumnState::CheckedOut));
}

#[test]
fn update_column_succeeds_after_checkout() {
    let mut table = table_from("age,name\n25,Ali\n30,Ayşe\n");

    let column = table.get_column::<i64>("age").unwrap();
    let result = table.update_column("age", column);

    assert!(result.is_ok());
}

#[test]
fn update_column_fails_when_not_checked_out() {
    let mut table = table_from("age,name\n25,Ali\n");

    let column = Column::new_from_parsed(vec![Some(25i64)], "age".to_string()).unwrap();
    let result = table.update_column("age", column);

    match result {
        Err(TableError::ColumnNotCheckedOut { name }) => assert_eq!(name, "age".to_string()),
        _ => panic!("Unexpected result."),
    }
}

#[test]
fn update_column_fails_when_column_not_found() {
    let mut table = table_from("age,name\n25,Ali\n");

    let column = Column::new_from_parsed(vec![Some(1i64)], "city".to_string()).unwrap();
    let result = table.update_column("city", column);

    match result {
        Err(TableError::ColumnNotFound { name }) => assert_eq!(name, "city".to_string()),
        _ => panic!("Unexpected result."),
    }
}

#[test]
fn update_column_fails_when_length_mismatches() {
    let mut table = table_from("age,name\n25,Ali\n30,Ayşe\n");

    let _checked_out = table.get_column::<i64>("age").unwrap();
    let wrong_length_column = Column::new_from_parsed(vec![Some(1i64)], "age".to_string()).unwrap();

    let result = table.update_column("age", wrong_length_column);

    match result {
        Err(TableError::ColumnLengthMismatch { length }) => assert_eq!(length, 2),
        _ => panic!("Unexpected result."),
    }
}

#[test]
fn update_column_allows_get_column_again() {
    let mut table = table_from("age,name\n25,Ali\n");

    let column = table.get_column::<i64>("age").unwrap();
    table.update_column("age", column).unwrap();

    let result = table.get_column::<i64>("age");

    assert!(result.is_ok());
}

#[test]
fn update_then_get_returns_the_written_column() {
    let mut table = table_from("age,name\n25,Ali\n30,Ayşe\n");

    let mut column = table.get_column::<i64>("age").unwrap();
    column.update_element(vec![(1, Some(31))]).unwrap();
    assert_eq!(table.update_column("age", column).unwrap(), "Column 'age' updated.");

    let again = table.get_column::<i64>("age").unwrap();
    assert_eq!(again.get(0), Some(&Some(25)));
    assert_eq!(again.get(1), Some(&Some(31)));
}

#[test]
fn add_column_succeeds_with_new_name() {
    let mut table = table_from("age,name\n25,Ali\n30,Ayşe\n");

    let new_column =
        Column::new_from_parsed(vec![Some(true), Some(false)], "is_active".to_string()).unwrap();

    let result = table.add_column(new_column);

    assert!(result.is_ok());
    assert_eq!(table.column_count(), 3);

    let fetched = table.get_column::<bool>("is_active");
    assert!(fetched.is_ok());
}

#[test]
fn add_column_fails_when_name_already_exists() {
    let mut table = table_from("age,name\n25,Ali\n");

    let duplicate = Column::new_from_parsed(vec![Some(1i64)], "age".to_string()).unwrap();
    let result = table.add_column(duplicate);

    match result {
        Err(TableError::ColumnAlreadyExists { name }) => assert_eq!(name, "age".to_string()),
        _ => panic!("Unexpected result."),
    }
}

#[test]
fn add_column_fails_when_length_mismatches() {
    let mut table = table_from("age,name\n25,Ali\n30,Ayşe\n");

    let wrong_length = Column::new_from_parsed(vec![Some(1i64)], "score".to_string()).unwrap();
    let result = table.add_column(wrong_length);

    match result {
        Err(TableError::ColumnLengthMismatch { length }) => {
            assert_eq!(length, table.row_count())
        }
        _ => panic!("Unexpected result."),
    }
}

#[test]
fn default_table_is_empty() {
    let table = Table::default();

    assert_eq!(table.row_count(), 0);
    assert_eq!(table.column_count(), 0);
    assert_eq!(table.file_path(), "");
}

fn ids(table: &mut Table) -> Vec<Option<i64>> {
    let column = table.get_column::<i64>("id").unwrap();
    (0..column.len()).map(|i| column.get(i).cloned().flatten()).collect()
}

#[test]
fn train_test_split_produces_correct_row_counts() {
    let table = table_from("id\n1\n2\n3\n4\n5\n6\n7\n8\n9\n10\n");

    let (train, test) = table.train_test_split(7, 42, None).unwrap();

    assert_eq!(train.row_count(), 7);
    assert_eq!(test.row_count(), 3);
}

#[test]
fn train_test_split_is_deterministic_with_same_seed() {
    let table = table_from("id\n1\n2\n3\n4\n5\n6\n7\n8\n9\n10\n");

    let (mut train1, _) = table.train_test_split(7, 42, None).unwrap();
    let (mut train2, _) = table.train_test_split(7, 42, None).unwrap();

    let values1 = ids(&mut train1);
    let values2 = ids(&mut train2);

    assert_eq!(values1, values2);
}

#[test]
fn train_test_split_includes_only_requested_columns() {
    let table = table_from("id,name\n1,Ali\n2,Ayşe\n3,Mehmet\n4,Zeynep\n");

    let (train, _) = table.train_test_split(2, 1, Some(vec!["id".to_string()])).unwrap();

    assert_eq!(train.column_count(), 1);
    assert!(train.column_data("id").is_some());
}

#[test]
fn train_test_split_fails_when_column_checked_out() {
    let mut table = table_from("id,name\n1,Ali\n2,Ayşe\n");

    let _checked_out = table.get_column::<i64>("id").unwrap();

    let result = table.train_test_split(1, 1, None);

    match result {
        Err(TableError::ColumnNotAvailable { name }) => assert_eq!(name, "id".to_string()),
        _ => panic!("Unexpected result."),
    }
}

#[test]
fn train_test_split_fails_when_column_not_found() {
    let table = table_from("id,name\n1,Ali\n2,Ayşe\n");

    let result = table.train_test_split(1, 1, Some(vec!["city".to_string()]));

    match result {
        Err(TableError::ColumnNotFound { name }) => assert_eq!(name, "city".to_string()),
        _ => panic!("Unexpected result."),
    }
}

#[test]
fn train_test_split_covers_every_row_once() {
    let table = table_from("id\n1\n2\n3\n4\n5\n6\n7\n8\n9\n10\n");

    let (mut train, mut test) = table.train_test_split(6, 7, None).unwrap();

    let mut all: Vec<i64> = ids(&mut train)
        .into_iter()
        .chain(ids(&mut test))
        .map(|v| v.unwrap())
        .collect();
    all.sort();
    assert_eq!(all, (1..=10).collect::<Vec<i64>>());
    assert_eq!(table.row_count(), 10);
}

#[test]
fn to_tensor_values_reads_rows_in_feature_order() {
    let mut table = table_from("a,b,y\n1,true,10\n2,false,20\n");
    let a = table.get_column::<i64>("a").unwrap();
    table.update_column("a", a).unwrap();
    let b = table.get_column::<bool>("b").unwrap();
    table.update_column("b", b).unwrap();
    let y = table.get_column_with::<Real, _>("y", parse_real).unwrap();
    table.update_column("y", y).unwrap();

    let (x, target) = table
        .to_tensor_values(vec!["b".to_string(), "a".to_string()], "y".to_string())
        .unwrap();

    assert_eq!(
        x,
        vec![
            vec![NumericValue::Bool(true), NumericValue::Int(1)],
            vec![NumericValue::Bool(false), NumericValue::Int(2)]
        ]
    );
    assert_eq!(target, vec![NumericValue::Float(as_real(10.0)), NumericValue::Float(as_real(20.0))]);
}

#[test]
fn to_tensor_values_rejects_target_among_features() {
    let table = table_from("a,y\n1,2\n");

    let result = table.to_tensor_values(vec!["y".to_string()], "y".to_string());

    match result {
        Err(TableError::TargetColumnInFeatures { name }) => assert_eq!(name, "y"),
        _ => panic!("Unexpected result."),
    }
}

#[test]
fn to_tensor_values_rejects_raw_and_missing_columns() {
    let mut table = table_from("a,y\n1,\n2,3\n");

    match table.to_tensor_values(vec!["a".to_string()], "y".to_string()) {
        Err(TableError::NonNumericColumn { name }) => assert_eq!(name, "a"),
        _ => panic!("Unexpected result."),
    }
    let a = table.get_column::<i64>("a").unwrap();
    table.update_column("a", a).unwrap();
    let y = table.get_column::<i64>("y").unwrap();
    table.update_column("y", y).unwrap();
    match table.to_tensor_values(vec!["a".to_string()], "y".to_string()) {
        Err(TableError::MissingValuesPresent { name }) => assert_eq!(name, "y"),
        _ => panic!("Unexpected result."),
    }
    match table.to_tensor_values(vec!["a".to_string()], "z".to_string()) {
        Err(TableError::ColumnNotFound { name }) => assert_eq!(name, "z"),
        _ => panic!("Unexpected result."),
    }
}

#[test]
fn to_feature_values_reads_every_row() {
    let mut table = table_from("a\n4\n5\n6\n");
    let a = table.get_column::<i64>("a").unwrap();
    table.update_column("a", a).unwrap();

    let rows = table.to_feature_values(vec!["a".to_string()]).unwrap();

    assert_eq!(
        rows,
        vec![vec![NumericValue::Int(4)], vec![NumericValue::Int(5)], vec![NumericValue::Int(6)]]
    );
}

#[test]
fn train_test_split_shuffles_the_rows() {
    let table = table_from("id\n1\n2\n3\n4\n5\n6\n7\n8\n9\n10\n");

    let (mut train, mut test) = table.train_test_split(7, 42, None).unwrap();

    let order: Vec<i64> =
        ids(&mut train).into_iter().chain(ids(&mut test)).map(|v| v.unwrap()).collect();
    assert_ne!(order, (1..=10).collect::<Vec<i64>>());
}

#[test]
fn from_csv_reports_unreadable_headers() {
    let result = Table::from_csv_bytes("data.csv".to_string(), &[0xff, 0xfe, b'\n', b'1', b'\n']);

    match result {
        Err(TableError::HeadersReadingError(_)) => {}
        _ => panic!("Unexpected result."),
    }
}

#[test]
fn add_column_needs_the_row_count_of_a_table_with_zero_rows() {
    let mut table = table_from("age,name\n");

    let column = Column::new_from_parsed(vec![Some(1i64)], "x".to_string()).unwrap();
    match table.add_column(column) {
        Err(TableError::ColumnLengthMismatch { length }) => assert_eq!(length, 0),
        _ => panic!("Unexpected result."),
    }
    assert_eq!(table.column_count(), 2);
}

#[test]
fn update_column_takes_any_length_when_no_column_is_held() {
    let mut table = table_from("age\n25\n30\n");

    let _checked_out = table.get_column::<i64>("age").unwrap();
    let shorter = Column::new_from_parsed(vec![Some(1i64)], "age".to_string()).unwrap();

    assert!(table.update_column("age", shorter).is_ok());
    assert_eq!(table.row_count(), 1);
}

#[test]
fn train_test_split_reports_a_bad_name_before_a_short_column() {
    let table = table_from("a,a,b\n1,2,3\n");
    assert_eq!(table.row_count(), 2);

    let result = table.train_test_split(1, 1, Some(vec!["city".to_string(), "b".to_string()]));

    match result {
        Err(TableError::ColumnNotFound { name }) => assert_eq!(name, "city"),
        _ => panic!("Unexpected result."),
    }
}
