use vstd::seq::Seq;
use wisdom::models::column::{Behavior, BehaviorResult, Column, ColumnError, MAX_NAME_LEN};

struct Sum;

impl Behavior<i64> for Sum {
    // Only the verifier reads this; it is never called.
    fn spec_run(&self, _data: Seq<Option<i64>>) -> BehaviorResult {
        unreachable!()
    }

    fn run(&self, data: &Vec<Option<i64>>) -> BehaviorResult {
        let total: i64 = data.iter().flatten().sum();
        BehaviorResult::Int(total)
    }
}

struct Count;

impl Behavior<i64> for Count {
    // Only the verifier reads this; it is never called.
    fn spec_run(&self, _data: Seq<Option<i64>>) -> BehaviorResult {
        unreachable!()
    }

    fn run(&self, data: &Vec<Option<i64>>) -> BehaviorResult {
        let count = data.iter().flatten().count() as i64;
        BehaviorResult::Int(count)
    }
}

#[test]
fn name_returns_the_column_name() {
    let column = Column::new_from_parsed(vec![Some(1i64), Some(2)], "age".to_string()).unwrap();

    assert_eq!(column.name(), "age")
}

#[test]
fn len_returns_number_of_elements() {
    let column =
        Column::new_from_parsed(vec![Some(1i64), Some(2), None], "age".to_string()).unwrap();

    assert_eq!(column.len(), 3)
}

#[test]
fn is_empty_returns_true_for_empty_column() {
    let column: Column<i64> = Column::new_from_parsed(vec![], "age".to_string()).unwrap();

    assert!(column.is_empty())
}

#[test]
fn is_empty_returns_false_for_nonempty_column() {
    let column = Column::new_from_parsed(vec![Some(1i64)], "age".to_string()).unwrap();

    assert!(!column.is_empty())
}

#[test]
fn missing_count_returns_zero() {
    let column =
        Column::new_from_parsed(vec![Some(1i64), Some(2), Some(3)], "age".to_string()).unwrap();

    assert_eq!(column.missing_count(), 0)
}

#[test]
fn missing_count_returns_count() {
    let column =
        Column::new_from_parsed(vec![Some(1i64), None, Some(2)], "age".to_string()).unwrap();

    assert_eq!(column.missing_count(), 1)
}

#[test]
fn missing_count_returns_total_when_all_missing() {
    let column: Column<i64> =
        Column::new_from_parsed(vec![None, None, None], "age".to_string()).unwrap();

    assert_eq!(column.missing_count(), 3)
}

#[test]
fn get_returns_some_some_value() {
    let column =
        Column::new_from_parsed(vec![Some(1i64), Some(2), Some(3)], "age".to_string()).unwrap();

    assert_eq!(column.get(1), Some(&Some(2)))
}

#[test]
fn get_returns_some_none_value() {
    let column =
        Column::new_from_parsed(vec![Some(1i64), None, Some(3)], "age".to_string()).unwrap();

    assert_eq!(column.get(1), Some(&None));
}

#[test]
fn get_returns_none_for_out_of_bounds_index() {
    let column =
        Column::new_from_parsed(vec![Some(1i64), Some(2), Some(3)], "age".to_string()).unwrap();

    assert_eq!(column.get(5), None);
}

#[test]
fn get_with_range_returns_slice() {
    let column =
        Column::new_from_parsed(vec![Some(1i64), Some(2), Some(3), Some(4)], "age".to_string())
            .unwrap();

    assert_eq!(column.get_range(1, 3), Some(&[Some(2), Some(3)][..]))
}

#[test]
fn get_range_returns_none_when_out_of_bounds() {
    let column = Column::new_from_parsed(vec![Some(1i64), Some(2)], "age".to_string()).unwrap();

    assert_eq!(column.get_range(1, 3), None);
    assert_eq!(column.get_range(2, 1), None);
    assert_eq!(column.get_range(2, 2), Some(&[][..]));
}

#[test]
fn register_behavior_succeeds_for_new_name() {
    let mut column =
        Column::new_from_parsed(vec![Some(1i64), Some(2)], "age".to_string()).unwrap();

    let result = column.register_behavior("sum", Sum);

    match result {
        Ok(message) => assert_eq!(message, "Behavior 'sum' added."),
        Err(_) => panic!("Test paniced!"),
    }
}

#[test]
fn register_behavior_fails_when_name_already_exits() {
    let mut column =
        Column::new_from_parsed(vec![Some(1i64), Some(2)], "age".to_string()).unwrap();

    column.register_behavior("sum", Sum).unwrap();

    let second_behavior = column.register_behavior("sum", Sum);

    match second_behavior {
        Err(ColumnError::BehaviorAlreadyRegistered { name }) => {
            assert_eq!(name, "sum");
        }
        _ => panic!("Unexpected result"),
    }
}

#[test]
fn call_behavior_returns_none() {
    let column = Column::new_from_parsed(vec![Some(1i64), Some(2)], "age".to_string()).unwrap();

    let behavior = column.call_behavior("sum");

    assert!(behavior.is_none())
}

#[test]
fn call_behavior_executes_registered_behavior() {
    let mut column =
        Column::new_from_parsed(vec![Some(1i64), Some(2)], "age".to_string()).unwrap();

    column.register_behavior("sum", Sum).unwrap();

    let result = column.call_behavior("sum");

    match result {
        Some(BehaviorResult::Int(value)) => assert_eq!(value, 3),
        _ => panic!("Unexpected result!"),
    }
}

#[test]
fn update_behavior_succeeds_and_replaces_logic() {
    let mut column =
        Column::new_from_parsed(vec![Some(1i64), Some(2)], "age".to_string()).unwrap();

    column.register_behavior("sum", Sum).unwrap();

    let update_result = column.update_behavior("sum", Count);

    match update_result {
        Ok(message) => assert_eq!(message, "Behavior 'sum' updated."),
        Err(_) => panic!("Test paniced"),
    }

    let call_result = column.call_behavior("sum");
    match call_result {
        Some(BehaviorResult::Int(value)) => assert_eq!(value, 2),
        _ => panic!("Unexpected result!"),
    }
}

#[test]
fn update_behavior_fails_when_not_registered() {
    let mut column =
        Column::new_from_parsed(vec![Some(1i64), Some(2)], "age".to_string()).unwrap();

    let result = column.update_behavior("sum", Sum);

    match result {
        Err(ColumnError::BehaviorNotFound { name }) => assert_eq!(name, "sum".to_string()),
        _ => panic!("Unexpected result"),
    }
}

#[test]
fn remove_behavior_succeeds_and_behavior_no_longer_callable() {
    let mut column =
        Column::new_from_parsed(vec![Some(1i64), Some(2)], "age".to_string()).unwrap();

    column.register_behavior("sum", Sum).unwrap();

    let remove_result = column.remove_behavior("sum");

    match remove_result {
        Ok(message) => assert_eq!(message, "Behavior 'sum' removed."),
        Err(_) => panic!("Test paniced!"),
    }

    let call_result = column.call_behavior("sum");
    assert!(call_result.is_none())
}

#[test]
fn remove_behavior_fails_when_not_registered() {
    let mut column =
        Column::new_from_parsed(vec![Some(1i64), Some(2)], "age".to_string()).unwrap();

    let result = column.remove_behavior("sum");
    match result {
        Err(ColumnError::BehaviorNotFound { name }) => assert_eq!(name, "sum".to_string()),
        _ => panic!("Unexpected result"),
    }
}

#[test]
fn update_name_succeeds_with_valid_name() {
    let mut column =
        Column::new_from_parsed(vec![Some(1i64), Some(2)], "age".to_string()).unwrap();

    let result = column.update_name("years".to_string());

    match result {
        Ok(message) => assert_eq!(message, "Name of the column changed from 'age' to 'years'."),
        Err(_) => panic!("Test paniced!"),
    }

    assert_eq!(column.name(), "years".to_string());
}

#[test]
fn update_name_fails_with_empty_name() {
    let mut column =
        Column::new_from_parsed(vec![Some(1i64), Some(2)], "age".to_string()).unwrap();

    let result = column.update_name("".to_string());
    match result {
        Err(ColumnError::EmptyName) => {}
        _ => panic!("Unexpected result"),
    }

    assert_eq!(column.name(), "age");
}

#[test]
fn update_name_fails_when_too_long() {
    let mut column =
        Column::new_from_parsed(vec![Some(1i64), Some(2)], "age".to_string()).unwrap();

    let too_long_name = "a".repeat(MAX_NAME_LEN + 1);
    let result = column.update_name(too_long_name);
    match result {
        Err(ColumnError::NameTooLong { max, actual }) => {
            assert_eq!(max, MAX_NAME_LEN);
            assert_eq!(actual, MAX_NAME_LEN + 1);
        }
        _ => panic!("Unexpected result"),
    }
}

#[test]
fn update_name_counts_characters_not_bytes() {
    let mut column =
        Column::new_from_parsed(vec![Some(1i64), Some(2)], "age".to_string()).unwrap();

    let accented = "ş".repeat(MAX_NAME_LEN);
    assert!(column.update_name(accented).is_ok());
    assert_eq!(column.name().chars().count(), MAX_NAME_LEN);
}

#[test]
fn new_from_parsed_fails_with_empty_name() {
    let result = Column::new_from_parsed(vec![Some(1i64)], "".to_string());

    assert!(matches!(result, Err(ColumnError::EmptyName)));
}

#[test]
fn update_element_succeeds_with_valid_indices() {
    let mut column =
        Column::new_from_parsed(vec![Some(1i64), Some(2), Some(3)], "age".to_string()).unwrap();

    let result = column.update_element(vec![(0, Some(10)), (2, Some(30))]);

    assert!(result.is_ok());
    assert_eq!(column.get(0), Some(&Some(10)));
    assert_eq!(column.get(1), Some(&Some(2)));
    assert_eq!(column.get(2), Some(&Some(30)));
}

#[test]
fn update_element_can_set_value_to_missing() {
    let mut column =
        Column::new_from_parsed(vec![Some(1i64), Some(2), Some(3)], "age".to_string()).unwrap();

    let result = column.update_element(vec![(1, None)]);

    assert!(result.is_ok());
    assert_eq!(column.get(1), Some(&None));
}

#[test]
fn update_element_fails_and_stays_atomic_for_out_of_bounds() {
    let mut column =
        Column::new_from_parsed(vec![Some(1i64), Some(2), Some(3)], "age".to_string()).unwrap();

    let result = column.update_element(vec![(0, Some(99)), (10, Some(100))]);

    match result {
        Err(ColumnError::IndexOutOfBounds { max }) => assert_eq!(max, column.len()),
        _ => panic!("Unexpected result."),
    }

    assert_eq!(column.get(0), Some(&Some(1)));
}

#[test]
fn update_element_fails_for_duplicate_indices() {
    let mut column =
        Column::new_from_parsed(vec![Some(1i64), Some(2), Some(3)], "age".to_string()).unwrap();

    let result = column.update_element(vec![(0, Some(10)), (0, Some(20))]);

    match result {
        Err(ColumnError::DuplicatedIndices) => {}
        _ => panic!("Unexpected result."),
    }

    assert_eq!(column.get(0), Some(&Some(1)));
}

#[test]
fn remove_element_succeeds_with_valid_indices() {
    let mut column =
        Column::new_from_parsed(vec![Some(1i64), Some(2), Some(3), Some(4)], "age".to_string())
            .unwrap();

    let result = column.remove_element(vec![1, 3]);

    assert!(result.is_ok());
    assert_eq!(column.len(), 2);
    assert_eq!(column.get(0), Some(&Some(1)));
    assert_eq!(column.get(1), Some(&Some(3)));
}

#[test]
fn remove_element_fails_and_stays_atomic_for_out_of_bounds() {
    let mut column =
        Column::new_from_parsed(vec![Some(1i64), Some(2), Some(3)], "age".to_string()).unwrap();

    let result = column.remove_element(vec![0, 10]);

    match result {
        Err(ColumnError::IndexOutOfBounds { max }) => assert_eq!(max, column.len()),
        _ => panic!("Unexpected result."),
    }

    assert_eq!(column.len(), 3);
    assert_eq!(column.get(0), Some(&Some(1)));
}

#[test]
fn remove_element_fails_for_duplicate_indices() {
    let mut column =
        Column::new_from_parsed(vec![Some(1i64), Some(2), Some(3)], "age".to_string()).unwrap();

    let result = column.remove_element(vec![1, 1]);

    match result {
        Err(ColumnError::DuplicatedIndices) => {}
        _ => panic!("Unexpected result."),
    }

    assert_eq!(column.len(), 3);
    assert_eq!(column.get(0), Some(&Some(1)));
}

#[test]
fn missing_indices_lists_missing_positions_in_order() {
    let column: Column<i64> =
        Column::new_from_parsed(vec![None, Some(2), None, Some(4)], "age".to_string()).unwrap();

    assert_eq!(column.missing_indices(), vec![0, 2]);
}

#[test]
fn fill_with_replaces_every_missing_cell() {
    let mut column: Column<i64> =
        Column::new_from_parsed(vec![None, Some(2), None], "age".to_string()).unwrap();

    let result = column.fill_with(7);

    assert_eq!(result.unwrap(), "Missing elements were filled.");
    assert_eq!(column.missing_count(), 0);
    assert_eq!(column.get(0), Some(&Some(7)));
    assert_eq!(column.get(1), Some(&Some(2)));
    assert_eq!(column.get(2), Some(&Some(7)));
}

#[test]
fn present_values_skips_missing_cells() {
    let column: Column<i64> =
        Column::new_from_parsed(vec![Some(5), None, Some(6)], "age".to_string()).unwrap();

    let values: Vec<i64> = column.present_values().into_iter().copied().collect();
    assert_eq!(values, vec![5, 6]);
}

#[test]
fn new_from_raw_parses_cells_and_keeps_missing() {
    let column = Column::<i64>::new_from_raw(
        vec![Some("25".to_string()), None, Some("-3".to_string())],
        "age".to_string(),
    )
    .unwrap();

    assert_eq!(column.get(0), Some(&Some(25)));
    assert_eq!(column.get(1), Some(&None));
    assert_eq!(column.get(2), Some(&Some(-3)));
}

#[test]
fn new_from_raw_reports_first_unparsable_cell() {
    let result = Column::<i64>::new_from_raw(
        vec![Some("1".to_string()), Some("x".to_string()), Some("y".to_string())],
        "age".to_string(),
    );

    match result {
        Err(ColumnError::ParseFailed { raw }) => assert_eq!(raw, "x"),
        _ => panic!("Unexpected result."),
    }
}

#[test]
fn new_from_raw_reads_booleans() {
    let column = Column::<bool>::new_from_raw(
        vec![Some("true".to_string()), Some("false".to_string())],
        "flag".to_string(),
    )
    .unwrap();

    assert_eq!(column.get(0), Some(&Some(true)));
    assert_eq!(column.get(1), Some(&Some(false)));
    assert!(Column::<bool>::new_from_raw(vec![Some("yes".to_string())], "flag".to_string()).is_err());
}

#[test]
fn call_behavior_runs_the_named_behavior() {
    let mut column =
        Column::new_from_parsed(vec![Some(4i64), None, Some(5)], "age".to_string()).unwrap();

    column.register_behavior("count", Count).unwrap();
    column.register_behavior("sum", Sum).unwrap();

    assert!(matches!(column.call_behavior("sum"), Some(BehaviorResult::Int(9))));
    assert!(matches!(column.call_behavior("count"), Some(BehaviorResult::Int(2))));
    column.remove_behavior("count").unwrap();
    assert!(matches!(column.call_behavior("sum"), Some(BehaviorResult::Int(9))));
}

#[test]
fn new_from_raw_with_reports_the_first_rejected_cell() {
    let result = Column::<i64>::new_from_raw_with(
        vec![Some("1".to_string()), None, Some("x".to_string()), Some("y".to_string())],
        "age".to_string(),
        |s: &String| s.parse::<i64>().ok(),
    );

    match result {
        Err(ColumnError::ParseFailed { raw }) => assert_eq!(raw, "x"),
        _ => panic!("Unexpected result."),
    }
}
