use invrev::decimal::{Decimal, Figure};
use invrev::discounts::calculate_discounted_price;
use invrev::matching::{InvoiceRow, SystemRow};
use invrev::number::{calculate_percentage_variation, format_number, parse_number};
use invrev::review::{review_invoice, ReviewInvoiceConfig};
use invrev::types::{DiscountRate, ItemKey, Price, SpreadsheetRowNumber};

fn number(text: &str) -> Decimal {
    parse_number(text).unwrap()
}

fn price(text: &str) -> Price {
    Price::new(number(text)).unwrap()
}

fn discount(text: &str) -> DiscountRate {
    DiscountRate::new(number(text)).unwrap()
}

#[test]
fn discounts_applied_in_two_steps_equal_all_at_once() {
    let all = calculate_discounted_price(price("530"), &[discount("19"), discount("12")]);
    let first = calculate_discounted_price(price("530"), &[discount("19")]);
    let then = calculate_discounted_price(first.adjusted_price.clone(), &[discount("12")]);
    assert_eq!(all.adjusted_price, then.adjusted_price);
    assert_eq!(format_number(&all.adjusted_price.value()), "377.784");
}

#[test]
fn discounts_never_raise_a_price() {
    let r = calculate_discounted_price(price("10.5"), &[discount("0.5"), discount("99.5")]);
    assert_eq!(format_number(&r.adjusted_price.value()), "0.0522375");
    let negative = calculate_discounted_price(price("-0"), &[discount("50")]);
    assert_eq!(format_number(&negative.adjusted_price.value()), "-0");
}

#[test]
fn equal_prices_vary_by_zero() {
    let f = calculate_percentage_variation(&number("5"), &number("5.00"));
    assert_eq!(f, Figure::Finite(number("0")));
    let g = calculate_percentage_variation(&number("-3"), &number("-3"));
    assert_eq!(g, Figure::Finite(number("0")));
}

#[test]
fn each_row_is_reported_at_most_once() {
    let row = |n: usize, k: &str, p: &str| InvoiceRow {
        row_number: SpreadsheetRowNumber::new(n).unwrap(),
        key: ItemKey::new(k).unwrap(),
        price: price(p),
    };
    let sys = |n: usize, k: &str, p: &str| SystemRow {
        row_number: SpreadsheetRowNumber::new(n).unwrap(),
        key: ItemKey::new(k).unwrap(),
        price: price(p),
        source_file: "s.xlsx".to_string(),
        source_sheet: "H".to_string(),
    };
    let invoice_rows = [row(1, "A", "1"), row(2, "B", "2"), row(3, "C", "3"), row(4, "D", "4")];
    let system_rows = [sys(1, "A", "1"), sys(2, "B", "3"), sys(3, "C", "1"), sys(4, "C", "2")];
    let files = ["s.xlsx".to_string()];
    let report = review_invoice(
        "f.xls",
        &invoice_rows[..],
        &files[..],
        &system_rows[..],
        ReviewInvoiceConfig::default(),
    );
    let s = report.summary;
    assert_eq!((s.total_price_mismatches, s.total_missing_keys, s.total_multiple_matches), (1, 1, 1));
    assert!(s.total_price_mismatches + s.total_missing_keys + s.total_multiple_matches <= s.total_rows_reviewed);
}
