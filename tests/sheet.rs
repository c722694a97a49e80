use calamine::cells::Cell;
use calamine::error::ExcelError;
use calamine::sheet::SheetData;

fn value_cell(sheet: &mut SheetData<f64>, address: &str, cell_type: Option<&str>, v: &str, strings: &Vec<String>) {
    sheet.cell_start(Some(address), cell_type).unwrap();
    assert!(sheet.child_start(true).unwrap());
    sheet.value(v, strings, v.parse::<f64>().ok()).unwrap();
    sheet.cell_end();
}

#[test]
fn shared_string_cell() {
    let strings = vec!["hello".to_string()];
    let mut sheet: SheetData<f64> = SheetData::new().unwrap();
    sheet.dimension(Some("A1")).unwrap();
    value_cell(&mut sheet, "A1", Some("s"), "0", &strings);
    assert_eq!(*sheet.range.get_value(0, 0), Cell::String("hello".to_string()));
}

#[test]
fn numeric_and_empty_cells() {
    let strings = Vec::new();
    let mut sheet: SheetData<f64> = SheetData::new().unwrap();
    sheet.dimension(Some("A1:C1")).unwrap();
    value_cell(&mut sheet, "A1", None, "42", &strings);
    value_cell(&mut sheet, "B1", None, "3.14", &strings);
    sheet.empty_cell(Some("C1")).unwrap();
    assert_eq!(*sheet.range.get_value(0, 0), Cell::Int(42));
    assert_eq!(*sheet.range.get_value(0, 1), Cell::Float(3.14));
    assert_eq!(*sheet.range.get_value(0, 2), Cell::Empty);
}

#[test]
fn cells_are_placed_by_address() {
    let strings = Vec::new();
    let mut sheet: SheetData<f64> = SheetData::new().unwrap();
    sheet.dimension(Some("B2:C3")).unwrap();
    value_cell(&mut sheet, "C3", None, "4", &strings);
    value_cell(&mut sheet, "B2", None, "1", &strings);
    assert_eq!(sheet.range.get_size(), (2, 2));
    assert_eq!(*sheet.range.get_value(0, 0), Cell::Int(1));
    assert_eq!(*sheet.range.get_value(0, 1), Cell::Empty);
    assert_eq!(*sheet.range.get_value(1, 1), Cell::Int(4));
    assert_eq!(sheet.range.rows().len(), 2);
}

#[test]
fn cells_without_address_follow_the_previous_one() {
    let strings = Vec::new();
    let mut sheet: SheetData<f64> = SheetData::new().unwrap();
    sheet.dimension(Some("A1:B2")).unwrap();
    value_cell(&mut sheet, "B1", None, "1", &strings);
    sheet.cell_start(None, None).unwrap();
    assert!(sheet.child_start(true).unwrap());
    sheet.value("2", &strings, None).unwrap();
    sheet.cell_end();
    assert_eq!(*sheet.range.get_value(1, 0), Cell::Int(2));
}

#[test]
fn other_child_before_value_is_malformed() {
    let mut sheet: SheetData<f64> = SheetData::new().unwrap();
    sheet.dimension(Some("A1")).unwrap();
    sheet.cell_start(Some("A1"), None).unwrap();
    assert!(matches!(sheet.child_start(false), Err(ExcelError::Malformed(_))));
}

#[test]
fn cell_outside_dimension_is_malformed() {
    let mut sheet: SheetData<f64> = SheetData::new().unwrap();
    sheet.dimension(Some("A1:B2")).unwrap();
    assert!(matches!(sheet.cell_start(Some("C1"), None), Err(ExcelError::Malformed(_))));
    assert!(matches!(sheet.dimension(None), Err(ExcelError::Malformed(_))));
}

#[test]
fn shared_index_out_of_range_is_an_error() {
    let strings = vec!["only".to_string()];
    let mut sheet: SheetData<f64> = SheetData::new().unwrap();
    sheet.dimension(Some("A1")).unwrap();
    sheet.cell_start(Some("A1"), Some("s")).unwrap();
    assert!(sheet.child_start(true).unwrap());
    assert!(sheet.value("5", &strings, Some(5.0)).is_err());
    assert_eq!(*sheet.range.get_value(0, 0), Cell::Empty);
}

#[test]
fn finished_sheet_gives_its_range() {
    let mut sheet: SheetData<f64> = SheetData::new().unwrap();
    sheet.dimension(Some("A1:B1")).unwrap();
    sheet.empty_cell(Some("A1")).unwrap();
    let range = sheet.finish(true).unwrap();
    assert_eq!(range.get_size(), (2, 1));
}

#[test]
fn input_ending_inside_a_cell_is_malformed() {
    let mut sheet: SheetData<f64> = SheetData::new().unwrap();
    sheet.dimension(Some("A1")).unwrap();
    sheet.cell_start(Some("A1"), None).unwrap();
    assert!(matches!(sheet.finish(true), Err(ExcelError::Malformed(_))));
    let sheet: SheetData<f64> = SheetData::new().unwrap();
    assert!(matches!(sheet.finish(false), Err(ExcelError::Malformed(_))));
}
