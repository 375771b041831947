use invrev::commands::{execute_command, Command};
use invrev::errors::{AppError, CliError, FileSystemError, SpreadsheetError};
use invrev::spreadsheet::SpreadsheetColumn;
use invrev::{main_entry, render_error};

#[test]
fn render_error_adds_help_for_cli_errors() {
    let rendered = render_error(&AppError::from(CliError::MissingInvoice));

    assert!(rendered.contains("Error: Debes indicar la factura"));
    assert!(rendered.contains("Uso:"));
}

#[test]
fn exit_code_distinguishes_cli_errors() {
    let cli_error = AppError::from(CliError::MissingInvoice);
    let file_system_error = AppError::from(FileSystemError::NotAFile { path: "/tmp".to_string() });

    assert_eq!(cli_error.exit_code(), 2);
    assert_eq!(file_system_error.exit_code(), 1);
}

#[test]
fn render_error_without_help_for_other_errors() {
    let error = AppError::from(FileSystemError::NotAFile { path: "/tmp".to_string() });
    assert_eq!(render_error(&error), "Error: La ruta no es un archivo: /tmp");
    let json = AppError::JsonSerialization { detail: "boom".to_string() };
    assert_eq!(json.exit_code(), 1);
    assert_eq!(render_error(&json), "Error: No se pudo serializar el reporte a JSON. boom");
    let decimals = AppError::TooManyDecimals;
    assert_eq!(decimals.exit_code(), 1);
    assert_eq!(
        render_error(&decimals),
        "Error: Los precios y los descuentos tienen más decimales de los que se pueden calcular."
    );
}

#[test]
fn file_system_messages() {
    let e = FileSystemError::CreateParentDirectory {
        path: "/a/b/c.txt".to_string(),
        parent: "/a/b".to_string(),
        detail: "denied".to_string(),
    };
    assert_eq!(e.message(), "No se pudo crear el directorio padre /a/b para /a/b/c.txt. denied");
    let f = FileSystemError::FileNotFound { path: "x.xls".to_string(), detail: "gone".to_string() };
    assert_eq!(f.message(), "No existe el archivo: x.xls");
    let w = FileSystemError::WriteFile { path: "o.txt".to_string(), detail: "full".to_string() };
    assert_eq!(w.message(), "No se pudo escribir el archivo: o.txt. full");
}

#[test]
fn spreadsheet_messages() {
    let e = SpreadsheetError::NoUsableRows {
        path: "/tmp/s.xlsx".to_string(),
        key_column: SpreadsheetColumn::A,
        price_column: SpreadsheetColumn::E,
    };
    assert_eq!(
        e.message(),
        "No se encontraron filas utilizables en /tmp/s.xlsx usando clave en la columna A y precio en la columna E."
    );
    let s = SpreadsheetError::NoUsableSheets { path: "/tmp/s.xlsx".to_string() };
    assert_eq!(s.message(), "El archivo /tmp/s.xlsx no contiene hojas utilizables.");
    let r = SpreadsheetError::ReadSheet {
        path: "/tmp/s.xlsx".to_string(),
        sheet_name: "Hoja1".to_string(),
        detail: "bad".to_string(),
    };
    assert_eq!(r.message(), "No se pudo leer la hoja `Hoja1` en /tmp/s.xlsx. bad");
}

#[test]
fn main_entry_prints_version_and_help() {
    match main_entry(vec!["-v".to_string()]).unwrap() {
        Command::Print(text) => assert_eq!(text, "invrev 0.2.0"),
        other => panic!("unexpected {:?}", other),
    }
    match main_entry(vec![]).unwrap() {
        Command::Print(text) => assert!(text.starts_with("invrev 0.2.0\n\nUso:")),
        other => panic!("unexpected {:?}", other),
    }
}

#[test]
fn main_entry_reports_missing_system_file() {
    let error = main_entry(vec!["-i".to_string(), "a.xls".to_string()]).unwrap_err();
    assert_eq!(error, AppError::Cli(CliError::MissingSystemFile));
    assert_eq!(error.exit_code(), 2);
}

#[test]
fn main_entry_builds_review_request() {
    let command = main_entry(vec![
        "-i".to_string(),
        "a.xls".to_string(),
        "-s".to_string(),
        "b.xlsx".to_string(),
    ])
    .unwrap();
    match command {
        Command::Review(request) => {
            assert_eq!(request.invoice_path, "a.xls");
            assert_eq!(request.system_paths, vec!["b.xlsx".to_string()]);
        }
        other => panic!("unexpected {:?}", other),
    }
    match execute_command(invrev::cli::CliOptions::Help).unwrap() {
        Command::Print(text) => assert!(text.contains("Reglas fijas:")),
        other => panic!("unexpected {:?}", other),
    }
}

#[test]
fn cli_error_constructors_keep_raw_values() {
    assert_eq!(
        CliError::invalid_discount(Some("x")),
        CliError::InvalidDiscount { raw_value: Some("x".to_string()) }
    );
    assert_eq!(
        CliError::invalid_sensitivity(None),
        CliError::InvalidSensitivity { raw_value: None }
    );
    assert_eq!(
        CliError::missing_path_value("--json"),
        CliError::MissingPathValue { flag: "--json".to_string() }
    );
}

#[test]
fn remaining_error_messages() {
    let r = FileSystemError::ResolveCurrentDirectory {
        path: "a.xls".to_string(),
        detail: "gone".to_string(),
    };
    assert_eq!(
        r.message(),
        "No se pudo obtener el directorio actual para resolver la ruta a.xls. gone"
    );
    let o = FileSystemError::OpenFile { path: "a.xls".to_string(), detail: "busy".to_string() };
    assert_eq!(o.message(), "No se pudo abrir el archivo: a.xls. busy");
    let m = FileSystemError::ReadMetadata { path: "a.xls".to_string(), detail: "io".to_string() };
    assert_eq!(m.message(), "No se pudo inspeccionar el archivo: a.xls. io");
    let w = SpreadsheetError::OpenWorkbook { path: "a.xls".to_string(), detail: "zip".to_string() };
    assert_eq!(w.message(), "No se pudo abrir la hoja de cálculo: a.xls. zip");
    assert_eq!(AppError::from(w).message(), "No se pudo abrir la hoja de cálculo: a.xls. zip");
}

#[test]
fn invalid_price_message_names_the_row() {
    let e = SpreadsheetError::InvalidPrice {
        path: "/tmp/f.xls".to_string(),
        sheet_name: "Hoja1".to_string(),
        row_number: 7,
        key: "A1".to_string(),
        price_column: SpreadsheetColumn::E,
    };
    assert_eq!(
        e.message(),
        "La fila 7 de la hoja `Hoja1` en /tmp/f.xls tiene la clave A1 pero no un precio válido en la columna E."
    );
}
