use invrev::decimal::{Decimal, Figure};
use invrev::discounts::{calculate_discounted_price, DiscountedPrice};
use invrev::matching::{
    group_rows_by_file, resolve_system_match, InvoiceRow, MatchResolution, SystemRow,
};
use invrev::number::{calculate_percentage_variation, parse_number};
use invrev::review::{discounts_fit, review_invoice, ReviewInvoiceConfig};
use invrev::types::{
    DiscountRate, ItemKey, PercentageDelta, Price, SensitivityThreshold, SpreadsheetRowNumber,
};

fn number(text: &str) -> Decimal {
    parse_number(text).unwrap()
}

fn key(value: &str) -> ItemKey {
    ItemKey::new(value).unwrap()
}

fn price(value: f64) -> Price {
    Price::new(number(&value.to_string())).unwrap()
}

fn discount(value: f64) -> DiscountRate {
    DiscountRate::new(number(&value.to_string())).unwrap()
}

fn sensitivity(value: f64) -> SensitivityThreshold {
    SensitivityThreshold::new(number(&value.to_string())).unwrap()
}

fn sheet_row(value: usize) -> SpreadsheetRowNumber {
    SpreadsheetRowNumber::new(value).unwrap()
}

fn invoice_row(row_number: usize, key_value: &str, price_value: f64) -> InvoiceRow {
    InvoiceRow { row_number: sheet_row(row_number), key: key(key_value), price: price(price_value) }
}

fn system_row(row_number: usize, key_value: &str, price_value: f64, file: &str) -> SystemRow {
    SystemRow {
        row_number: sheet_row(row_number),
        key: key(key_value),
        price: price(price_value),
        source_file: file.to_string(),
        source_sheet: "Hoja1".to_string(),
    }
}

fn finite(figure: &Figure) -> &Decimal {
    match figure {
        Figure::Finite(d) => d,
        other => panic!("not finite: {:?}", other),
    }
}

#[test]
fn keeps_original_price_without_discounts() {
    assert_eq!(
        calculate_discounted_price(price(530.0), &[]),
        DiscountedPrice {
            original_price: price(530.0),
            discounts: vec![],
            adjusted_price: price(530.0),
        },
    );
}

#[test]
fn applies_successive_discounts() {
    let discounts = [discount(19.0), discount(12.0)];
    let result = calculate_discounted_price(price(530.0), &discounts[..]);
    assert_eq!(result.adjusted_price.value(), number("377.784"));
}

#[test]
fn percentage_variation_applies_formula() {
    let figure = calculate_percentage_variation(&number("83.63"), &number("95.85"));
    assert_eq!(*finite(&figure), number("-12.75"));
}

#[test]
fn reports_price_missing_and_multiple() {
    let invoice_rows = [
        invoice_row(2, "A", 10.0),
        invoice_row(3, "B", 10.0),
        invoice_row(4, "C", 10.0),
        invoice_row(5, "D", 10.0),
    ];
    let system_files = ["/tmp/EAG.xlsx".to_string(), "/tmp/ACC.xlsx".to_string()];
    let system_rows = [
        system_row(8, "A", 20.0, "/tmp/EAG.xlsx"),
        system_row(9, "C", 10.0, "/tmp/EAG.xlsx"),
        system_row(10, "D", 11.0, "/tmp/ACC.xlsx"),
        system_row(11, "D", 12.0, "/tmp/ACC.xlsx"),
    ];

    let report = review_invoice(
        "/tmp/47088.xls",
        &invoice_rows[..],
        &system_files[..],
        &system_rows[..],
        ReviewInvoiceConfig::default(),
    );

    assert_eq!(report.summary.total_rows_reviewed, 4);
    assert_eq!(report.summary.total_price_mismatches, 1);
    assert_eq!(report.summary.total_missing_keys, 1);
    assert_eq!(report.summary.total_multiple_matches, 1);
    assert_eq!(report.discounts, Vec::<DiscountRate>::new());
    assert_eq!(report.price_mismatches[0].key, key("A"));
    assert_eq!(report.missing_keys[0], key("B"));
    assert_eq!(report.multiple_matches[0].key, key("D"));
}

#[test]
fn applies_discount_and_sensitivity_on_adjusted_price() {
    let invoice_rows = [invoice_row(2, "A", 100.0), invoice_row(3, "B", 100.0)];
    let system_files = ["/tmp/EAG.xlsx".to_string()];
    let system_rows = [
        system_row(10, "A", 95.0, "/tmp/EAG.xlsx"),
        system_row(11, "B", 100.0, "/tmp/EAG.xlsx"),
    ];

    let report = review_invoice(
        "/tmp/47088.xls",
        &invoice_rows[..],
        &system_files[..],
        &system_rows[..],
        ReviewInvoiceConfig {
            discounts: vec![discount(5.5)],
            sensitivity: Some(sensitivity(-1.0)),
        },
    );

    assert_eq!(report.summary.total_price_mismatches, 1);
    assert_eq!(report.price_mismatches[0].key, key("B"));
    assert_eq!(report.price_mismatches[0].compared_invoice_price.value(), number("94.5"));
    assert_eq!(*finite(&report.price_mismatches[0].percentage_result.value()), number("-5.5"));
}

#[test]
fn review_invoice_keeps_original_behavior_without_sensitivity() {
    let invoice_rows = [InvoiceRow { row_number: sheet_row(2), key: key("A"), price: price(100.004) }];
    let system_files = ["/tmp/EAG.xlsx".to_string()];
    let system_rows = [SystemRow {
        row_number: sheet_row(8),
        key: key("A"),
        price: price(100.0),
        source_file: "/tmp/EAG.xlsx".to_string(),
        source_sheet: "Hoja1".to_string(),
    }];

    let report = review_invoice(
        "/tmp/47088.xls",
        &invoice_rows[..],
        &system_files[..],
        &system_rows[..],
        ReviewInvoiceConfig::default(),
    );

    assert_eq!(report.summary.total_price_mismatches, 1);
    assert_eq!(report.price_mismatches[0].percentage_result, PercentageDelta::new(number("0")));
}

#[test]
fn flat_report_values_for_a_single_mismatch() {
    let invoice_rows = [invoice_row(2, "A", 100.0)];
    let system_files = ["/tmp/EAG.xlsx".to_string()];
    let system_rows = [system_row(8, "A", 95.0, "/tmp/EAG.xlsx")];
    let report = review_invoice(
        "/tmp/47088.xls",
        &invoice_rows[..],
        &system_files[..],
        &system_rows[..],
        ReviewInvoiceConfig::default(),
    );
    assert_eq!(report.invoice_file, "/tmp/47088.xls");
    assert_eq!(report.system_files[0], "/tmp/EAG.xlsx");
    let m = &report.price_mismatches[0];
    assert_eq!(m.key.as_str(), "A");
    assert_eq!(m.invoice_price.value(), number("100"));
    assert_eq!(m.invoice_row_number.get(), 2);
    assert_eq!(m.system_row_number.get(), 8);
    assert_eq!(m.system_sheet, "Hoja1");
    assert_eq!(m.percentage_formula, "precio_usado / precio_sistema * 100 - 100");
    assert_eq!(*finite(&m.percentage_result.value()), number("5.26"));
}

#[test]
fn first_file_holding_the_key_decides() {
    let invoice_rows = [invoice_row(2, "K", 10.0)];
    let system_files = ["/tmp/ACC.xlsx".to_string(), "/tmp/EAG.xlsx".to_string()];
    let system_rows = [
        system_row(3, "K", 12.0, "/tmp/EAG.xlsx"),
        system_row(4, "K", 13.0, "/tmp/EAG.xlsx"),
        system_row(5, "K", 11.0, "/tmp/ACC.xlsx"),
    ];
    let report = review_invoice(
        "/tmp/f.xls",
        &invoice_rows[..],
        &system_files[..],
        &system_rows[..],
        ReviewInvoiceConfig::default(),
    );
    assert_eq!(report.summary.total_multiple_matches, 0);
    assert_eq!(report.summary.total_price_mismatches, 1);
    assert_eq!(report.price_mismatches[0].system_file, "/tmp/ACC.xlsx");
    assert_eq!(report.price_mismatches[0].system_price.value(), number("11"));
}

#[test]
fn multiple_match_lists_files_once_and_rows_in_order() {
    let invoice_rows = [invoice_row(7, "K", 10.0)];
    let system_files = ["/tmp/EAG.xlsx".to_string()];
    let system_rows = [
        system_row(3, "K", 12.0, "/tmp/EAG.xlsx"),
        system_row(4, "X", 13.0, "/tmp/EAG.xlsx"),
        system_row(9, "K", 11.0, "/tmp/EAG.xlsx"),
    ];
    let report = review_invoice(
        "/tmp/f.xls",
        &invoice_rows[..],
        &system_files[..],
        &system_rows[..],
        ReviewInvoiceConfig::default(),
    );
    let m = &report.multiple_matches[0];
    assert_eq!(m.invoice_row_number.get(), 7);
    assert_eq!(m.system_files, vec!["/tmp/EAG.xlsx".to_string()]);
    assert_eq!(m.system_rows.iter().map(|n| n.get()).collect::<Vec<_>>(), vec![3, 9]);
}

#[test]
fn rows_of_unlisted_files_are_ignored() {
    let invoice_rows = [invoice_row(2, "K", 10.0)];
    let system_files = ["/tmp/EAG.xlsx".to_string()];
    let system_rows = [system_row(3, "K", 12.0, "/tmp/OTHER.xlsx")];
    let report = review_invoice(
        "/tmp/f.xls",
        &invoice_rows[..],
        &system_files[..],
        &system_rows[..],
        ReviewInvoiceConfig::default(),
    );
    assert_eq!(report.missing_keys, vec![key("K")]);
}

#[test]
fn sensitivity_keeps_increases_and_large_drops() {
    let invoice_rows = [
        invoice_row(2, "UP", 101.0),
        invoice_row(3, "SMALL", 99.5),
        invoice_row(4, "BIG", 90.0),
        invoice_row(5, "EDGE", 99.0),
    ];
    let system_files = ["/tmp/EAG.xlsx".to_string()];
    let system_rows = [
        system_row(2, "UP", 100.0, "/tmp/EAG.xlsx"),
        system_row(3, "SMALL", 100.0, "/tmp/EAG.xlsx"),
        system_row(4, "BIG", 100.0, "/tmp/EAG.xlsx"),
        system_row(5, "EDGE", 100.0, "/tmp/EAG.xlsx"),
    ];
    let report = review_invoice(
        "/tmp/f.xls",
        &invoice_rows[..],
        &system_files[..],
        &system_rows[..],
        ReviewInvoiceConfig { discounts: vec![], sensitivity: Some(sensitivity(-1.0)) },
    );
    let keys: Vec<&str> = report.price_mismatches.iter().map(|m| m.key.as_str()).collect();
    assert_eq!(keys, vec!["UP", "BIG", "EDGE"]);
}

#[test]
fn equal_prices_after_discount_are_not_reported() {
    let invoice_rows = [invoice_row(2, "A", 200.0)];
    let system_files = ["/tmp/EAG.xlsx".to_string()];
    let system_rows = [system_row(3, "A", 100.0, "/tmp/EAG.xlsx")];
    let report = review_invoice(
        "/tmp/f.xls",
        &invoice_rows[..],
        &system_files[..],
        &system_rows[..],
        ReviewInvoiceConfig { discounts: vec![discount(50.0)], sensitivity: None },
    );
    assert_eq!(report.summary.total_price_mismatches, 0);
    assert_eq!(report.summary.total_rows_reviewed, 1);
}

#[test]
fn zero_system_price_gives_infinite_variation() {
    let up = calculate_percentage_variation(&number("5"), &number("0"));
    assert_eq!(up, Figure::Infinite { negative: false });
    let none = calculate_percentage_variation(&number("0"), &number("0"));
    assert_eq!(none, Figure::NotANumber);
}

#[test]
fn resolution_follows_priority_files() {
    let system_rows = [
        system_row(1, "A", 1.0, "f1"),
        system_row(2, "A", 2.0, "f2"),
        system_row(3, "A", 3.0, "f2"),
    ];
    let groups = group_rows_by_file(&system_rows[..]);
    assert_eq!(groups.len(), 2);
    let files = ["f2".to_string(), "f1".to_string()];
    match resolve_system_match(&key("A"), &groups, &files[..]) {
        MatchResolution::Multiple(rows) => assert_eq!(rows.len(), 2),
        other => panic!("unexpected {:?}", other),
    }
    let files = ["f1".to_string(), "f2".to_string()];
    match resolve_system_match(&key("A"), &groups, &files[..]) {
        MatchResolution::Found(row) => assert_eq!(row.row_number.get(), 1),
        other => panic!("unexpected {:?}", other),
    }
    assert_eq!(resolve_system_match(&key("Z"), &groups, &files[..]), MatchResolution::NotFound);
}

#[test]
fn discount_scales_fit() {
    let rows = [invoice_row(2, "A", 10.5)];
    assert!(discounts_fit(&rows[..], &[discount(19.0), discount(12.5)]));
}

#[test]
fn keys_are_trimmed_and_never_empty() {
    assert_eq!(key("  AB-1 \t").as_str(), "AB-1");
    assert!(ItemKey::new("   ").is_none());
    let k = key(" x ");
    assert_eq!(ItemKey::new(k.as_str()).unwrap(), k);
    assert!(SpreadsheetRowNumber::new(0).is_none());
}

#[test]
fn system_files_match_as_paths() {
    let invoice_rows = [invoice_row(2, "A", 10.0), invoice_row(3, "B", 10.0)];
    let system_files = ["/tmp/EAG.xlsx".to_string()];
    let system_rows = [
        system_row(4, "A", 12.0, "/tmp/./EAG.xlsx"),
        system_row(5, "B", 12.0, "/tmp//EAG.xlsx"),
        system_row(6, "B", 13.0, "/tmp/EAG.xlsx"),
    ];
    let report = review_invoice(
        "/tmp/f.xls",
        &invoice_rows[..],
        &system_files[..],
        &system_rows[..],
        ReviewInvoiceConfig::default(),
    );
    assert_eq!(report.summary.total_price_mismatches, 1);
    assert_eq!(report.price_mismatches[0].system_file, "/tmp/./EAG.xlsx");
    assert_eq!(report.multiple_matches[0].system_files, vec!["/tmp//EAG.xlsx".to_string()]);
}
