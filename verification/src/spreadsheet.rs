//! The columns of the spreadsheets and the rows that can be read from them.

use vstd::prelude::*;
use crate::decimal::{normalize, DecimalValue};
use crate::errors::SpreadsheetError;
use crate::matching::{InvoiceRow, SystemRow};
use crate::number::{parse_number, parsed_number};
use crate::text::trimmed;
use crate::types::{ItemKey, Price, SpreadsheetRowNumber};

verus! {

/// A column that the review reads.
#[derive(Debug, Clone, Copy, PartialEq, Eq, Structural)]
pub enum SpreadsheetColumn {
    A,
    C,
    E,
}

/// The position of a column, counting from zero.
pub open spec fn column_index(c: SpreadsheetColumn) -> nat {
    match c {
        SpreadsheetColumn::A => 0,
        SpreadsheetColumn::C => 2,
        SpreadsheetColumn::E => 4,
    }
}

/// The letter of a column.
pub open spec fn column_label(c: SpreadsheetColumn) -> Seq<char> {
    match c {
        SpreadsheetColumn::A => "A"@,
        SpreadsheetColumn::C => "C"@,
        SpreadsheetColumn::E => "E"@,
    }
}

impl SpreadsheetColumn {
    /// The position of the column, counting from zero.
    pub fn zero_based_index(self) -> (r: usize)
        ensures
            r == column_index(self),
    {
        match self {
            SpreadsheetColumn::A => 0,
            SpreadsheetColumn::C => 2,
            SpreadsheetColumn::E => 4,
        }
    }

    /// The letter of the column.
    pub fn label(self) -> (r: &'static str)
        ensures
            r@ == column_label(self),
    {
        match self {
            SpreadsheetColumn::A => "A",
            SpreadsheetColumn::C => "C",
            SpreadsheetColumn::E => "E",
        }
    }
}

/// The column of the invoice keys.
pub const INVOICE_KEY_COLUMN: SpreadsheetColumn = SpreadsheetColumn::C;

/// The column of the invoice prices.
pub const INVOICE_PRICE_COLUMN: SpreadsheetColumn = SpreadsheetColumn::E;

/// The column of the system keys.
pub const SYSTEM_KEY_COLUMN: SpreadsheetColumn = SpreadsheetColumn::A;

/// The column of the system prices.
pub const SYSTEM_PRICE_COLUMN: SpreadsheetColumn = SpreadsheetColumn::E;

/// Where a sheet keeps its keys and prices.
#[derive(Debug, Clone, Copy, PartialEq, Eq, Structural)]
pub struct SheetReadOptions {
    pub key_column: SpreadsheetColumn,
    pub price_column: SpreadsheetColumn,
    pub priority_index: usize,
}

/// The cells of a sheet as text, row by row; no rows when the sheet is empty.
#[derive(Debug)]
pub struct SheetCells {
    pub name: String,
    pub rows: Vec<Vec<String>>,
}

/// A row with a key and a price, and where it was read.
#[derive(Debug)]
pub struct ParsedSheetRow {
    pub row_number: SpreadsheetRowNumber,
    pub key: ItemKey,
    pub price: Price,
    pub sheet_name: String,
}

/// The content of a `ParsedSheetRow`.
pub struct ParsedRowView {
    pub row_number: nat,
    pub key: Seq<char>,
    pub price: DecimalValue,
    pub sheet_name: Seq<char>,
}

impl View for ParsedSheetRow {
    type V = ParsedRowView;

    open spec fn view(&self) -> ParsedRowView {
        ParsedRowView {
            row_number: self.row_number@,
            key: self.key@,
            price: self.price@,
            sheet_name: self.sheet_name@,
        }
    }
}

/// The text of the cell at `i`, if the row reaches that far.
pub open spec fn cell_text(row: Seq<String>, i: nat) -> Option<Seq<char>> {
    if i < row.len() {
        Some(row[i as int]@)
    } else {
        None
    }
}

/// The key of a row: its key cell, trimmed (empty when there is no cell).
pub open spec fn row_key(row: Seq<String>, options: SheetReadOptions) -> Seq<char> {
    match cell_text(row, column_index(options.key_column)) {
        Some(t) => trimmed(t),
        None => Seq::empty(),
    }
}

/// The price of a row, when its price cell holds a number.
pub open spec fn row_price(row: Seq<String>, options: SheetReadOptions) -> Option<DecimalValue> {
    match cell_text(row, column_index(options.price_column)) {
        Some(t) => parsed_number(t),
        None => None,
    }
}

/// The rows of a sheet that have a key and a price, numbered from 1.
pub open spec fn sheet_rows(
    name: Seq<char>,
    rows: Seq<Seq<String>>,
    options: SheetReadOptions,
) -> Seq<ParsedRowView>
    decreases rows.len(),
{
    if rows.len() == 0 {
        Seq::empty()
    } else {
        let prev = sheet_rows(name, rows.drop_last(), options);
        let row = rows.last();
        if row_key(row, options).len() > 0 && row_price(row, options) is Some {
            prev.push(
                ParsedRowView {
                    row_number: rows.len(),
                    key: row_key(row, options),
                    price: normalize(row_price(row, options)->0),
                    sheet_name: name,
                },
            )
        } else {
            prev
        }
    }
}

/// The rows of a sheet, each as the texts of its cells.
pub open spec fn cell_rows(rows: Seq<Vec<String>>) -> Seq<Seq<String>> {
    rows.map_values(|r: Vec<String>| r@)
}

/// A row has a key but no price that can be read.
pub open spec fn is_bad_row(row: Seq<String>, options: SheetReadOptions) -> bool {
    row_key(row, options).len() > 0 && row_price(row, options) is None
}

/// Where the first row with a key but no readable price stands, if any.
pub open spec fn first_bad_row(rows: Seq<Seq<String>>, options: SheetReadOptions) -> Option<nat>
    decreases rows.len(),
{
    if rows.len() == 0 {
        None
    } else {
        match first_bad_row(rows.drop_last(), options) {
            Some(k) => Some(k),
            None => if is_bad_row(rows.last(), options) {
                Some((rows.len() - 1) as nat)
            } else {
                None
            },
        }
    }
}

/// The first sheet has cells: it is the one that is read.
pub open spec fn first_sheet_usable(sheets: Seq<SheetCells>) -> bool {
    sheets.len() > 0 && sheets[0].rows@.len() > 0
}

/// The rows of the first sheet that have a key and a price, numbered from 1.
pub open spec fn first_sheet_rows(sheets: Seq<SheetCells>, options: SheetReadOptions) -> Seq<
    ParsedRowView,
> {
    if sheets.len() == 0 {
        Seq::empty()
    } else {
        sheet_rows(sheets[0].name@, cell_rows(sheets[0].rows@), options)
    }
}

/// The views of parsed rows.
pub open spec fn parsed_views(rows: Seq<ParsedSheetRow>) -> Seq<ParsedRowView> {
    rows.map_values(|r: ParsedSheetRow| r@)
}

/// The sheets can be read: the first sheet has cells, and every row of it
/// with a key has a readable price.
pub open spec fn rows_readable(sheets: Seq<SheetCells>, options: SheetReadOptions) -> bool {
    first_sheet_usable(sheets) && first_bad_row(cell_rows(sheets[0].rows@), options) is None
}

/// The error of sheets that cannot be read: the first sheet is missing or
/// empty, or it has a row with a key and no readable price, and the error
/// names the first such row.
pub open spec fn read_failure(
    e: SpreadsheetError,
    sheets: Seq<SheetCells>,
    source_file: Seq<char>,
    options: SheetReadOptions,
) -> bool {
    if !first_sheet_usable(sheets) {
        e matches SpreadsheetError::NoUsableSheets { path } && path@ == source_file
    } else {
        let rows = cell_rows(sheets[0].rows@);
        let k = first_bad_row(rows, options)->0;
        e matches SpreadsheetError::InvalidPrice { path, sheet_name, row_number, key, price_column }
            && path@ == source_file && sheet_name@ == sheets[0].name@ && row_number == k + 1
            && key@ == row_key(rows[k as int], options) && price_column == options.price_column
    }
}

proof fn lemma_first_bad_row_bound(rows: Seq<Seq<String>>, options: SheetReadOptions)
    ensures
        first_bad_row(rows, options) matches Some(k) ==> k < rows.len() && is_bad_row(
            rows[k as int],
            options,
        ),
    decreases rows.len(),
{
    if rows.len() > 0 {
        lemma_first_bad_row_bound(rows.drop_last(), options);
        if let Some(k) = first_bad_row(rows.drop_last(), options) {
            assert(rows.drop_last()[k as int] == rows[k as int]);
        }
    }
}

/// Reads the rows of the first sheet that have a key and a price. Rows with
/// no key are skipped; a row with a key but no readable price stops the
/// reading with an error that names it.
pub fn read_rows_from_sheets(
    sheets: &Vec<SheetCells>,
    source_file: &str,
    options: &SheetReadOptions,
) -> (r: Result<Vec<ParsedSheetRow>, SpreadsheetError>)
    ensures
        r is Ok <==> rows_readable(sheets@, *options),
        r matches Err(e) ==> read_failure(e, sheets@, source_file@, *options),
        r matches Ok(v) ==> parsed_views(v@) == first_sheet_rows(sheets@, *options),
{
    let ghost opts = *options;
    if sheets.len() == 0 || sheets[0].rows.len() == 0 {
        return Err(SpreadsheetError::NoUsableSheets { path: source_file.to_owned() });
    }
    let sheet = &sheets[0];
    let ghost cells = cell_rows(sheet.rows@);
    let key_index = options.key_column.zero_based_index();
    let price_index = options.price_column.zero_based_index();
    let mut rows: Vec<ParsedSheetRow> = Vec::new();
    let mut t: usize = 0;
    proof {
        assert(cells.take(0) =~= Seq::<Seq<String>>::empty());
    }
    while t < sheet.rows.len()
        invariant
            t <= sheet.rows@.len(),
            opts == *options,
            sheets@.len() > 0,
            *sheet == sheets@[0],
            key_index == column_index(opts.key_column),
            price_index == column_index(opts.price_column),
            cells == cell_rows(sheet.rows@),
            parsed_views(rows@) == sheet_rows(sheet.name@, cells.take(t as int), opts),
            first_bad_row(cells.take(t as int), opts) is None,
        decreases sheet.rows@.len() - t,
    {
        let row = &sheet.rows[t];
        proof {
            assert(cells.take(t + 1).drop_last() =~= cells.take(t as int));
            assert(cells.take(t + 1).last() == row@);
            assert(cells[t as int] == row@);
        }
        let raw_key: &str = if key_index < row.len() {
            row[key_index].as_str()
        } else {
            ""
        };
        proof {
            if key_index >= row.len() {
                assert(raw_key@.len() == 0) by {
                    reveal_strlit("");
                }
                assert(trimmed(raw_key@) =~= Seq::<char>::empty());
            }
        }
        match ItemKey::new(raw_key) {
            None => {},
            Some(key) => {
                let parsed = if price_index < row.len() {
                    parse_number(row[price_index].as_str())
                } else {
                    None
                };
                match parsed {
                    None => {
                        proof {
                            assert(first_bad_row(cells.take(t + 1), opts) == Some(t as nat));
                            assert(cells.take(sheets@[0].rows@.len() as int) =~= cells);
                            lemma_first_bad_row_prefix(cells, t as int + 1, opts);
                            assert(first_bad_row(cells, opts) == Some(t as nat));
                            assert(first_sheet_usable(sheets@));
                            assert(key@ == row_key(cells[t as int], opts));
                        }
                        return Err(
                            SpreadsheetError::InvalidPrice {
                                path: source_file.to_owned(),
                                sheet_name: sheet.name.clone(),
                                row_number: t + 1,
                                key: key.to_text(),
                                price_column: options.price_column,
                            },
                        );
                    },
                    Some(amount) => {
                        let price = Price::new(amount).unwrap();
                        let row_number = SpreadsheetRowNumber::new(t + 1).unwrap();
                        let ghost prev = parsed_views(rows@);
                        rows.push(
                            ParsedSheetRow { row_number, key, price, sheet_name: sheet.name.clone() },
                        );
                        proof {
                            crate::decimal::lemma_same_number(price@, row_price(row@, opts)->0);
                            assert(parsed_views(rows@) =~= prev.push(rows@.last()@));
                        }
                    },
                }
            },
        }
        t = t + 1;
    }
    proof {
        assert(cells.take(cells.len() as int) =~= cells);
    }
    Ok(rows)
}

/// The first bad row of a prefix is the first bad row of the whole.
proof fn lemma_first_bad_row_prefix(rows: Seq<Seq<String>>, n: int, options: SheetReadOptions)
    requires
        0 <= n <= rows.len(),
        first_bad_row(rows.take(n), options) is Some,
    ensures
        first_bad_row(rows, options) == first_bad_row(rows.take(n), options),
    decreases rows.len() - n,
{
    if n < rows.len() {
        assert(rows.take(n + 1).drop_last() =~= rows.take(n));
        lemma_first_bad_row_prefix(rows, n + 1, options);
    } else {
        assert(rows.take(n) =~= rows);
    }
}

/// Reads the invoice rows of the first sheet.
pub fn read_invoice_rows(
    sheets: &Vec<SheetCells>,
    source_file: &str,
    options: &SheetReadOptions,
) -> (r: Result<Vec<InvoiceRow>, SpreadsheetError>)
    ensures
        r is Ok <==> rows_readable(sheets@, *options),
        r matches Err(e) ==> read_failure(e, sheets@, source_file@, *options),
        r matches Ok(v) ==> v@.len() == first_sheet_rows(sheets@, *options).len() && forall|k: int|
            0 <= k < v@.len() ==> {
                let p = #[trigger] first_sheet_rows(sheets@, *options)[k];
                &&& v@[k].row_number@ == p.row_number
                &&& v@[k].key@ == p.key
                &&& v@[k].price@ == p.price
            },
{
    let rows = read_rows_from_sheets(sheets, source_file, options)?;
    let mut out: Vec<InvoiceRow> = Vec::new();
    let mut i: usize = 0;
    while i < rows.len()
        invariant
            i <= rows@.len(),
            parsed_views(rows@) == first_sheet_rows(sheets@, *options),
            out@.len() == i,
            forall|k: int|
                0 <= k < i ==> {
                    let p = #[trigger] first_sheet_rows(sheets@, *options)[k];
                    &&& out@[k].row_number@ == p.row_number
                    &&& out@[k].key@ == p.key
                    &&& out@[k].price@ == p.price
                },
        decreases rows@.len() - i,
    {
        let entry = &rows[i];
        proof {
            assert(parsed_views(rows@)[i as int] == rows@[i as int]@);
        }
        out.push(
            InvoiceRow {
                row_number: entry.row_number,
                key: entry.key.clone(),
                price: entry.price.clone(),
            },
        );
        i = i + 1;
    }
    Ok(out)
}

/// Reads the system rows of the first sheet of `source_file`.
pub fn read_system_rows(
    sheets: &Vec<SheetCells>,
    source_file: &str,
    options: &SheetReadOptions,
) -> (r: Result<Vec<SystemRow>, SpreadsheetError>)
    ensures
        r is Ok <==> rows_readable(sheets@, *options),
        r matches Err(e) ==> read_failure(e, sheets@, source_file@, *options),
        r matches Ok(v) ==> v@.len() == first_sheet_rows(sheets@, *options).len() && forall|k: int|
            0 <= k < v@.len() ==> {
                let p = #[trigger] first_sheet_rows(sheets@, *options)[k];
                &&& v@[k].row_number@ == p.row_number
                &&& v@[k].key@ == p.key
                &&& v@[k].price@ == p.price
                &&& v@[k].source_file@ == source_file@
                &&& v@[k].source_sheet@ == p.sheet_name
            },
{
    let rows = read_rows_from_sheets(sheets, source_file, options)?;
    let mut out: Vec<SystemRow> = Vec::new();
    let mut i: usize = 0;
    while i < rows.len()
        invariant
            i <= rows@.len(),
            parsed_views(rows@) == first_sheet_rows(sheets@, *options),
            out@.len() == i,
            forall|k: int|
                0 <= k < i ==> {
                    let p = #[trigger] first_sheet_rows(sheets@, *options)[k];
                    &&& out@[k].row_number@ == p.row_number
                    &&& out@[k].key@ == p.key
                    &&& out@[k].price@ == p.price
                    &&& out@[k].source_file@ == source_file@
                    &&& out@[k].source_sheet@ == p.sheet_name
                },
        decreases rows@.len() - i,
    {
        let entry = &rows[i];
        proof {
            assert(parsed_views(rows@)[i as int] == rows@[i as int]@);
        }
        out.push(
            SystemRow {
                row_number: entry.row_number,
                key: entry.key.clone(),
                price: entry.price.clone(),
                source_file: source_file.to_owned(),
                source_sheet: entry.sheet_name.clone(),
            },
        );
        i = i + 1;
    }
    Ok(out)
}

} // verus!
