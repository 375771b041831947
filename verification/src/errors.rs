//! The errors of the tool and the messages that name them.

use vstd::prelude::*;
use crate::spreadsheet::{column_label, SpreadsheetColumn};
use crate::text::concat;

verus! {

/// A mistake in the command line.
#[derive(Debug, PartialEq, Eq)]
pub enum CliError {
    MissingInvoice,
    MissingSystemFile,
    MissingPathValue { flag: String },
    MissingSystemPathValue,
    InvalidSensitivity { raw_value: Option<String> },
    InvalidDiscount { raw_value: Option<String> },
    UnknownFlag { argument: String },
    UnexpectedPositionalArgument { argument: String },
}

/// The text of an optional value.
pub open spec fn opt_text(o: Option<String>) -> Option<Seq<char>> {
    match o {
        Some(s) => Some(s@),
        None => None,
    }
}

/// The content of a `CliError`.
pub enum CliErrorView {
    MissingInvoice,
    MissingSystemFile,
    MissingPathValue { flag: Seq<char> },
    MissingSystemPathValue,
    InvalidSensitivity { raw_value: Option<Seq<char>> },
    InvalidDiscount { raw_value: Option<Seq<char>> },
    UnknownFlag { argument: Seq<char> },
    UnexpectedPositionalArgument { argument: Seq<char> },
}

impl View for CliError {
    type V = CliErrorView;

    open spec fn view(&self) -> CliErrorView {
        match self {
            CliError::MissingInvoice => CliErrorView::MissingInvoice,
            CliError::MissingSystemFile => CliErrorView::MissingSystemFile,
            CliError::MissingPathValue { flag } => CliErrorView::MissingPathValue { flag: flag@ },
            CliError::MissingSystemPathValue => CliErrorView::MissingSystemPathValue,
            CliError::InvalidSensitivity { raw_value } => CliErrorView::InvalidSensitivity {
                raw_value: opt_text(*raw_value),
            },
            CliError::InvalidDiscount { raw_value } => CliErrorView::InvalidDiscount {
                raw_value: opt_text(*raw_value),
            },
            CliError::UnknownFlag { argument } => CliErrorView::UnknownFlag {
                argument: argument@,
            },
            CliError::UnexpectedPositionalArgument { argument } =>
                CliErrorView::UnexpectedPositionalArgument { argument: argument@ },
        }
    }
}

/// A copy of an optional text.
pub fn copy_opt_text(o: Option<&str>) -> (r: Option<String>)
    ensures
        match o {
            Some(s) => r matches Some(t) && t@ == s@,
            None => r is None,
        },
{
    match o {
        Some(s) => Some(s.to_owned()),
        None => None,
    }
}

impl CliError {
    /// The error of a path option without its path.
    pub fn missing_path_value(flag: &str) -> (r: CliError)
        ensures
            r@ == (CliErrorView::MissingPathValue { flag: flag@ }),
    {
        CliError::MissingPathValue { flag: flag.to_owned() }
    }

    /// The error of a sensitivity that is missing or not a negative number.
    pub fn invalid_sensitivity(raw_value: Option<&str>) -> (r: CliError)
        ensures
            r@ == (CliErrorView::InvalidSensitivity {
                raw_value: match raw_value {
                    Some(s) => Some(s@),
                    None => None,
                },
            }),
    {
        CliError::InvalidSensitivity { raw_value: copy_opt_text(raw_value) }
    }

    /// The error of a discount that is missing or not a percentage above 0
    /// and below 100.
    pub fn invalid_discount(raw_value: Option<&str>) -> (r: CliError)
        ensures
            r@ == (CliErrorView::InvalidDiscount {
                raw_value: match raw_value {
                    Some(s) => Some(s@),
                    None => None,
                },
            }),
    {
        CliError::InvalidDiscount { raw_value: copy_opt_text(raw_value) }
    }
}

/// The message of a command line error.
pub open spec fn cli_error_text(e: CliErrorView) -> Seq<char> {
    match e {
        CliErrorView::MissingInvoice => "Debes indicar la factura con `--invoice <ruta>` o `-i <ruta>`."@,
        CliErrorView::MissingSystemFile =>
            "Debes indicar al menos un archivo del sistema con `--system <ruta>` o `-s <ruta>`."@,
        CliErrorView::MissingPathValue { flag } => "`"@ + flag + "` requiere una ruta."@,
        CliErrorView::MissingSystemPathValue => "`--system` requiere al menos una ruta."@,
        CliErrorView::InvalidSensitivity { .. } =>
            "`--sensitivity` requiere un valor numérico negativo, por ejemplo `--sensitivity -1`."@,
        CliErrorView::InvalidDiscount { .. } =>
            "`--discount` requiere un porcentaje numérico mayor a 0 y menor a 100, por ejemplo `--discount 19` o `--discount 5.5`."@,
        CliErrorView::UnknownFlag { argument } => "Argumento no reconocido: "@ + argument,
        CliErrorView::UnexpectedPositionalArgument { argument } => "Argumento no reconocido: "@
            + argument + ". Esta CLI no usa subcomandos. Usa directamente -i y -s."@,
    }
}

impl CliError {
    /// The message of the error.
    pub fn message(&self) -> (r: String)
        ensures
            r@ == cli_error_text(self@),
    {
        match self {
            CliError::MissingInvoice => "Debes indicar la factura con `--invoice <ruta>` o `-i <ruta>`.".to_owned(),
            CliError::MissingSystemFile =>
                "Debes indicar al menos un archivo del sistema con `--system <ruta>` o `-s <ruta>`.".to_owned(),
            CliError::MissingPathValue { flag } => {
                let a = concat("`", flag.as_str());
                concat(a.as_str(), "` requiere una ruta.")
            },
            CliError::MissingSystemPathValue => "`--system` requiere al menos una ruta.".to_owned(),
            CliError::InvalidSensitivity { .. } =>
                "`--sensitivity` requiere un valor numérico negativo, por ejemplo `--sensitivity -1`.".to_owned(),
            CliError::InvalidDiscount { .. } =>
                "`--discount` requiere un porcentaje numérico mayor a 0 y menor a 100, por ejemplo `--discount 19` o `--discount 5.5`.".to_owned(),
            CliError::UnknownFlag { argument } => concat(
                "Argumento no reconocido: ",
                argument.as_str(),
            ),
            CliError::UnexpectedPositionalArgument { argument } => {
                let a = concat("Argumento no reconocido: ", argument.as_str());
                concat(a.as_str(), ". Esta CLI no usa subcomandos. Usa directamente -i y -s.")
            },
        }
    }
}

/// A failure of the file system, with the path it concerns and the system's
/// own description of what went wrong.
#[derive(Debug, PartialEq, Eq)]
pub enum FileSystemError {
    ResolveCurrentDirectory { path: String, detail: String },
    FileNotFound { path: String, detail: String },
    OpenFile { path: String, detail: String },
    ReadMetadata { path: String, detail: String },
    NotAFile { path: String },
    CreateParentDirectory { path: String, parent: String, detail: String },
    WriteFile { path: String, detail: String },
}

/// The message of a file system error.
pub open spec fn file_system_error_text(e: FileSystemError) -> Seq<char> {
    match e {
        FileSystemError::ResolveCurrentDirectory { path, detail } =>
            "No se pudo obtener el directorio actual para resolver la ruta "@ + path@ + ". "@
            + detail@,
        FileSystemError::FileNotFound { path, .. } => "No existe el archivo: "@ + path@,
        FileSystemError::OpenFile { path, detail } => "No se pudo abrir el archivo: "@ + path@
            + ". "@ + detail@,
        FileSystemError::ReadMetadata { path, detail } => "No se pudo inspeccionar el archivo: "@
            + path@ + ". "@ + detail@,
        FileSystemError::NotAFile { path } => "La ruta no es un archivo: "@ + path@,
        FileSystemError::CreateParentDirectory { path, parent, detail } =>
            "No se pudo crear el directorio padre "@ + parent@ + " para "@ + path@ + ". "@
            + detail@,
        FileSystemError::WriteFile { path, detail } => "No se pudo escribir el archivo: "@ + path@
            + ". "@ + detail@,
    }
}

/// `a`, then `b`, `. ` and `c`.
fn with_detail(a: &str, b: &str, c: &str) -> (r: String)
    ensures
        r@ == a@ + b@ + ". "@ + c@,
{
    let x = concat(a, b);
    let y = concat(x.as_str(), ". ");
    concat(y.as_str(), c)
}

impl FileSystemError {
    /// The message of the error.
    pub fn message(&self) -> (r: String)
        ensures
            r@ == file_system_error_text(*self),
    {
        match self {
            FileSystemError::ResolveCurrentDirectory { path, detail } => with_detail(
                "No se pudo obtener el directorio actual para resolver la ruta ",
                path.as_str(),
                detail.as_str(),
            ),
            FileSystemError::FileNotFound { path, .. } => concat(
                "No existe el archivo: ",
                path.as_str(),
            ),
            FileSystemError::OpenFile { path, detail } => with_detail(
                "No se pudo abrir el archivo: ",
                path.as_str(),
                detail.as_str(),
            ),
            FileSystemError::ReadMetadata { path, detail } => with_detail(
                "No se pudo inspeccionar el archivo: ",
                path.as_str(),
                detail.as_str(),
            ),
            FileSystemError::NotAFile { path } => concat(
                "La ruta no es un archivo: ",
                path.as_str(),
            ),
            FileSystemError::CreateParentDirectory { path, parent, detail } => {
                let a = concat("No se pudo crear el directorio padre ", parent.as_str());
                let b = concat(a.as_str(), " para ");
                with_detail(b.as_str(), path.as_str(), detail.as_str())
            },
            FileSystemError::WriteFile { path, detail } => with_detail(
                "No se pudo escribir el archivo: ",
                path.as_str(),
                detail.as_str(),
            ),
        }
    }
}

/// A failure to read a spreadsheet, or a spreadsheet with nothing to read.
#[derive(Debug, PartialEq, Eq)]
pub enum SpreadsheetError {
    OpenWorkbook { path: String, detail: String },
    ReadSheet { path: String, sheet_name: String, detail: String },
    NoUsableSheets { path: String },
    /// A sheet with no row that has both a key and a valid price. No reader of
    /// this library returns it: a keyed row without a valid price is reported
    /// as `InvalidPrice`, and a sheet without keyed rows reads as empty. It
    /// stays part of the tool's error vocabulary, with its message.
    NoUsableRows {
        path: String,
        key_column: SpreadsheetColumn,
        price_column: SpreadsheetColumn,
    },
    InvalidPrice {
        path: String,
        sheet_name: String,
        row_number: usize,
        key: String,
        price_column: SpreadsheetColumn,
    },
}

/// The message of a spreadsheet error.
pub open spec fn spreadsheet_error_text(e: SpreadsheetError) -> Seq<char> {
    match e {
        SpreadsheetError::OpenWorkbook { path, detail } =>
            "No se pudo abrir la hoja de cálculo: "@ + path@ + ". "@ + detail@,
        SpreadsheetError::ReadSheet { path, sheet_name, detail } => "No se pudo leer la hoja `"@
            + sheet_name@ + "` en "@ + path@ + ". "@ + detail@,
        SpreadsheetError::NoUsableSheets { path } => "El archivo "@ + path@
            + " no contiene hojas utilizables."@,
        SpreadsheetError::NoUsableRows { path, key_column, price_column } =>
            "No se encontraron filas utilizables en "@ + path@
            + " usando clave en la columna "@ + column_label(key_column)
            + " y precio en la columna "@ + column_label(price_column) + "."@,
        SpreadsheetError::InvalidPrice { path, sheet_name, row_number, key, price_column } =>
            "La fila "@ + crate::report::nat_text(row_number as nat) + " de la hoja `"@
            + sheet_name@ + "` en "@ + path@ + " tiene la clave "@ + key@
            + " pero no un precio válido en la columna "@ + column_label(price_column) + "."@,
    }
}

impl SpreadsheetError {
    /// The message of the error.
    pub fn message(&self) -> (r: String)
        ensures
            r@ == spreadsheet_error_text(*self),
    {
        match self {
            SpreadsheetError::OpenWorkbook { path, detail } => with_detail(
                "No se pudo abrir la hoja de cálculo: ",
                path.as_str(),
                detail.as_str(),
            ),
            SpreadsheetError::ReadSheet { path, sheet_name, detail } => {
                let a = concat("No se pudo leer la hoja `", sheet_name.as_str());
                let b = concat(a.as_str(), "` en ");
                with_detail(b.as_str(), path.as_str(), detail.as_str())
            },
            SpreadsheetError::NoUsableSheets { path } => {
                let a = concat("El archivo ", path.as_str());
                concat(a.as_str(), " no contiene hojas utilizables.")
            },
            SpreadsheetError::NoUsableRows { path, key_column, price_column } => {
                let a = concat("No se encontraron filas utilizables en ", path.as_str());
                let b = concat(a.as_str(), " usando clave en la columna ");
                let c = concat(b.as_str(), key_column.label());
                let d = concat(c.as_str(), " y precio en la columna ");
                let e = concat(d.as_str(), price_column.label());
                concat(e.as_str(), ".")
            },
            SpreadsheetError::InvalidPrice { path, sheet_name, row_number, key, price_column } => {
                let n = crate::report::count_text(*row_number);
                let a = concat("La fila ", n.as_str());
                let b = concat(a.as_str(), " de la hoja `");
                let c = concat(b.as_str(), sheet_name.as_str());
                let d = concat(c.as_str(), "` en ");
                let e = concat(d.as_str(), path.as_str());
                let f = concat(e.as_str(), " tiene la clave ");
                let g = concat(f.as_str(), key.as_str());
                let h = concat(g.as_str(), " pero no un precio válido en la columna ");
                let i = concat(h.as_str(), price_column.label());
                concat(i.as_str(), ".")
            },
        }
    }
}

/// Any failure of the tool.
#[derive(Debug, PartialEq, Eq)]
pub enum AppError {
    Cli(CliError),
    FileSystem(FileSystemError),
    Spreadsheet(SpreadsheetError),
    JsonSerialization { detail: String },
    /// The discounts and prices together carry more decimal places than a
    /// `usize` counts, so the exact arithmetic of the review cannot hold them.
    TooManyDecimals,
}

/// The message of an error.
pub open spec fn app_error_text(e: AppError) -> Seq<char> {
    match e {
        AppError::Cli(c) => cli_error_text(c@),
        AppError::FileSystem(f) => file_system_error_text(f),
        AppError::Spreadsheet(s) => spreadsheet_error_text(s),
        AppError::JsonSerialization { detail } =>
            "No se pudo serializar el reporte a JSON. "@ + detail@,
        AppError::TooManyDecimals =>
            "Los precios y los descuentos tienen más decimales de los que se pueden calcular."@,
    }
}

impl AppError {
    /// The exit status: 2 for a mistake in the command line, 1 for the rest.
    pub fn exit_code(&self) -> (r: i32)
        ensures
            r == (if self is Cli {
                2i32
            } else {
                1i32
            }),
    {
        match self {
            AppError::Cli(_) => 2,
            _ => 1,
        }
    }

    /// The message of the error.
    pub fn message(&self) -> (r: String)
        ensures
            r@ == app_error_text(*self),
    {
        match self {
            AppError::Cli(c) => c.message(),
            AppError::FileSystem(f) => f.message(),
            AppError::Spreadsheet(s) => s.message(),
            AppError::JsonSerialization { detail } => concat(
                "No se pudo serializar el reporte a JSON. ",
                detail.as_str(),
            ),
            AppError::TooManyDecimals => {
                "Los precios y los descuentos tienen más decimales de los que se pueden calcular.".to_owned()
            },
        }
    }
}

impl From<CliError> for AppError {
    fn from(e: CliError) -> (r: AppError) {
        AppError::Cli(e)
    }
}

impl vstd::std_specs::convert::FromSpecImpl<CliError> for AppError {
    open spec fn obeys_from_spec() -> bool {
        true
    }

    open spec fn from_spec(e: CliError) -> AppError {
        AppError::Cli(e)
    }
}

impl From<FileSystemError> for AppError {
    fn from(e: FileSystemError) -> (r: AppError) {
        AppError::FileSystem(e)
    }
}

impl vstd::std_specs::convert::FromSpecImpl<FileSystemError> for AppError {
    open spec fn obeys_from_spec() -> bool {
        true
    }

    open spec fn from_spec(e: FileSystemError) -> AppError {
        AppError::FileSystem(e)
    }
}

impl From<SpreadsheetError> for AppError {
    fn from(e: SpreadsheetError) -> (r: AppError) {
        AppError::Spreadsheet(e)
    }
}

impl vstd::std_specs::convert::FromSpecImpl<SpreadsheetError> for AppError {
    open spec fn obeys_from_spec() -> bool {
        true
    }

    open spec fn from_spec(e: SpreadsheetError) -> AppError {
        AppError::Spreadsheet(e)
    }
}

} // verus!
