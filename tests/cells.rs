use calamine::cells::{cell_value, parse_index, parse_int, shared_string, Cell};
use calamine::error::ExcelError;
use calamine::range::Range;

#[test]
fn shared_string_resolves() {
    let table = vec!["hello".to_string()];
    assert_eq!(shared_string(&table, "0").unwrap(), "hello");
}

#[test]
fn shared_string_out_of_range_is_an_error() {
    let table = vec!["hello".to_string()];
    assert!(matches!(shared_string(&table, "1"), Err(ExcelError::Malformed(_))));
    assert!(matches!(shared_string(&table, "x"), Err(ExcelError::Parse(_))));
    assert!(matches!(shared_string(&Vec::new(), "0"), Err(ExcelError::Malformed(_))));
}

#[test]
fn integers_parse() {
    assert_eq!(parse_int("42"), Some(42));
    assert_eq!(parse_int("-7"), Some(-7));
    assert_eq!(parse_int("+8"), Some(8));
    assert_eq!(parse_int("9223372036854775807"), Some(i64::MAX));
    assert_eq!(parse_int("-9223372036854775808"), Some(i64::MIN));
    assert_eq!(parse_int("9223372036854775808"), None);
    assert_eq!(parse_int("3.14"), None);
    assert_eq!(parse_int(""), None);
    assert_eq!(parse_int("-"), None);
}

#[test]
fn non_integer_values_fall_back_to_float() {
    assert_eq!(parse_int("3.14"), None);
    assert_eq!("3.14".parse::<f64>().unwrap(), 3.14);
}

#[test]
fn indices_parse() {
    assert_eq!(parse_index("0"), Some(0));
    assert_eq!(parse_index("+12"), Some(12));
    assert_eq!(parse_index("-1"), None);
    assert_eq!(parse_index("18446744073709551616"), None);
}

#[test]
fn range_is_dense_and_addressed() {
    let mut r: Range<i64> = Range::from_dimension("B2:D3", 0).unwrap();
    assert_eq!(r.get_position(), (2, 2));
    assert_eq!(r.get_size(), (3, 2));
    assert_eq!(r.rows().len(), 2);
    assert!(r.rows().iter().all(|row| row.len() == 3));
    let (i, j) = r.cell_position("C3").unwrap();
    assert_eq!((i, j), (1, 1));
    r.set_value(i, j, 42);
    assert_eq!(*r.get_value(1, 1), 42);
    assert_eq!(*r.get_value(0, 0), 0);
    assert_eq!(r.rows()[1], &[0, 42, 0][..]);
    assert!(matches!(r.cell_position("A1"), Err(ExcelError::Malformed(_))));
    assert!(matches!(r.cell_position("E2"), Err(ExcelError::Malformed(_))));
}

#[test]
fn absent_cells_stay_empty() {
    let r: Range<Option<i64>> = Range::from_dimension("A1", None).unwrap();
    assert_eq!(r.get_size(), (1, 1));
    assert_eq!(*r.get_value(0, 0), None);
}

#[test]
fn cell_values_by_kind() {
    let table = vec!["hello".to_string()];
    let value = |shared: bool, v: &str| cell_value(shared, v, &table, v.parse::<f64>().ok());
    assert_eq!(value(true, "0").unwrap(), Cell::String("hello".to_string()));
    assert_eq!(value(false, "42").unwrap(), Cell::Int(42));
    assert_eq!(value(false, "3.14").unwrap(), Cell::Float(3.14));
    assert!(matches!(value(false, "abc"), Err(ExcelError::Parse(_))));
    assert!(matches!(value(true, "3"), Err(ExcelError::Malformed(_))));
}

#[test]
fn next_position_walks_row_major() {
    let r: Range<u8> = Range::from_dimension("A1:B2", 0).unwrap();
    assert_eq!(r.next_position((0, 0)), Some((0, 1)));
    assert_eq!(r.next_position((0, 1)), Some((1, 0)));
    assert_eq!(r.next_position((1, 1)), None);
}

#[test]
fn new_range_cells_all_hold_the_empty_value() {
    let r: Range<i64> = Range::new((1, 1), (3, 2), -1).unwrap();
    assert!(r.rows().iter().all(|row| row.iter().all(|c| *c == -1)));
}
