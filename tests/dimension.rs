use calamine::dimension::{get_dimension, get_row_column};
use calamine::error::ExcelError;

#[test]
fn single_cell_dimension() {
    assert_eq!(get_dimension("A1").unwrap(), ((1, 1), (1, 1)));
}

#[test]
fn range_dimension() {
    assert_eq!(get_dimension("C2:E4").unwrap(), ((2, 3), (3, 3)));
}

#[test]
fn range_dimension_width_and_height_differ() {
    assert_eq!(get_dimension("A6:G67").unwrap(), ((6, 1), (7, 62)));
}

#[test]
fn bijective_base_26_columns() {
    assert_eq!(get_row_column("AA1").unwrap(), (1, 27));
    assert_eq!(get_row_column("AZ10").unwrap(), (10, 52));
    assert_eq!(get_row_column("BA100").unwrap(), (100, 53));
    assert_eq!(get_row_column("XFD1048576").unwrap(), (1048576, 16384));
}

#[test]
fn lower_case_letters_decode_alike() {
    assert_eq!(get_row_column("ab12").unwrap(), get_row_column("AB12").unwrap());
    assert_eq!(get_row_column("xfd3").unwrap(), (3, 16384));
}

#[test]
fn malformed_cell_texts() {
    for text in ["", "A", "12", "1A", "A1B", "A-1", "A0", "A 1", "É1", "A99999999999"] {
        assert!(matches!(get_row_column(text), Err(ExcelError::Malformed(_))), "{}", text);
    }
}

#[test]
fn malformed_ranges() {
    assert!(matches!(get_dimension("C4:A1"), Err(ExcelError::Malformed(_))));
    assert!(matches!(get_dimension("A1:"), Err(ExcelError::Malformed(_))));
    assert!(matches!(get_dimension(":B2"), Err(ExcelError::Malformed(_))));
}
