use invrev::errors::SpreadsheetError;
use invrev::spreadsheet::{
    read_invoice_rows, read_system_rows, SheetCells, SheetReadOptions, SpreadsheetColumn,
    INVOICE_KEY_COLUMN, INVOICE_PRICE_COLUMN, SYSTEM_KEY_COLUMN, SYSTEM_PRICE_COLUMN,
};

fn row(cells: &[&str]) -> Vec<String> {
    cells.iter().map(|c| c.to_string()).collect()
}

fn invoice_options() -> SheetReadOptions {
    SheetReadOptions {
        key_column: INVOICE_KEY_COLUMN,
        price_column: INVOICE_PRICE_COLUMN,
        priority_index: 0,
    }
}

fn system_options() -> SheetReadOptions {
    SheetReadOptions {
        key_column: SYSTEM_KEY_COLUMN,
        price_column: SYSTEM_PRICE_COLUMN,
        priority_index: 1,
    }
}

#[test]
fn columns_have_fixed_positions() {
    assert_eq!(SpreadsheetColumn::A.zero_based_index(), 0);
    assert_eq!(SpreadsheetColumn::C.zero_based_index(), 2);
    assert_eq!(SpreadsheetColumn::E.zero_based_index(), 4);
    assert_eq!(SpreadsheetColumn::C.label(), "C");
}

#[test]
fn invoice_rows_skip_rows_without_key() {
    let sheets = vec![SheetCells {
        name: "Hoja1".to_string(),
        rows: vec![
            row(&["", "", "", "", "Precio"]),
            row(&["", "", " A1 ", "", "$1,000.50"]),
            row(&["", "", "", "", "5"]),
            row(&["x"]),
        ],
    }];
    let rows = read_invoice_rows(&sheets, "/tmp/f.xls", &invoice_options()).unwrap();
    assert_eq!(rows.len(), 1);
    assert_eq!(rows[0].key.as_str(), "A1");
    assert_eq!(rows[0].row_number.get(), 2);
    assert_eq!(invrev::number::format_number(&rows[0].price.value()), "1000.5");
}

#[test]
fn keyed_row_without_valid_price_is_an_error() {
    let sheets = vec![SheetCells {
        name: "Hoja1".to_string(),
        rows: vec![
            row(&["", "", "A1", "", "10"]),
            row(&["", "", "B2", "", "n/a"]),
            row(&["", "", "C3"]),
        ],
    }];
    let e = read_invoice_rows(&sheets, "/tmp/f.xls", &invoice_options()).unwrap_err();
    assert_eq!(
        e,
        SpreadsheetError::InvalidPrice {
            path: "/tmp/f.xls".to_string(),
            sheet_name: "Hoja1".to_string(),
            row_number: 2,
            key: "B2".to_string(),
            price_column: SpreadsheetColumn::E,
        }
    );
}

#[test]
fn keyed_row_without_price_cell_is_an_error() {
    let sheets = vec![SheetCells {
        name: "H".to_string(),
        rows: vec![row(&["K1", "", "", "", "3"]), row(&["K2"])],
    }];
    let e = read_system_rows(&sheets, "/tmp/s.xlsx", &system_options()).unwrap_err();
    assert_eq!(
        e,
        SpreadsheetError::InvalidPrice {
            path: "/tmp/s.xlsx".to_string(),
            sheet_name: "H".to_string(),
            row_number: 2,
            key: "K2".to_string(),
            price_column: SpreadsheetColumn::E,
        }
    );
}

#[test]
fn only_the_first_sheet_is_read() {
    let sheets = vec![
        SheetCells {
            name: "Report".to_string(),
            rows: vec![row(&["K1", "x", "y", "z", "12"]), row(&["K2", "", "", "", "7.5"])],
        },
        SheetCells { name: "Otra".to_string(), rows: vec![row(&["K3", "", "", "", "1"])] },
    ];
    let rows = read_system_rows(&sheets, "/tmp/s.xlsx", &system_options()).unwrap();
    assert_eq!(rows.len(), 2);
    assert_eq!(rows[1].key.as_str(), "K2");
    assert_eq!(rows[1].row_number.get(), 2);
    assert_eq!(rows[1].source_file, "/tmp/s.xlsx");
    assert_eq!(rows[1].source_sheet, "Report");
}

#[test]
fn no_usable_sheets_is_an_error() {
    let none: Vec<SheetCells> = vec![];
    let e = read_invoice_rows(&none, "/tmp/f.xls", &invoice_options()).unwrap_err();
    assert_eq!(e, SpreadsheetError::NoUsableSheets { path: "/tmp/f.xls".to_string() });
    let first_empty = vec![
        SheetCells { name: "H".to_string(), rows: vec![] },
        SheetCells { name: "I".to_string(), rows: vec![row(&["K", "", "", "", "1"])] },
    ];
    let e = read_system_rows(&first_empty, "/tmp/s.xlsx", &system_options()).unwrap_err();
    assert_eq!(e, SpreadsheetError::NoUsableSheets { path: "/tmp/s.xlsx".to_string() });
}

#[test]
fn sheets_without_keys_give_no_rows() {
    let sheets = vec![SheetCells { name: "H".to_string(), rows: vec![row(&["", "", "", "", "1"])] }];
    let rows = read_system_rows(&sheets, "/tmp/s.xlsx", &system_options()).unwrap();
    assert!(rows.is_empty());
}
