use invrev::number::parse_number;
use invrev::report::render_text_report;
use invrev::review::{MultipleMatch, PriceMismatch, ReviewReport, ReviewSummary};
use invrev::types::{DiscountRate, ItemKey, PercentageDelta, Price, SpreadsheetRowNumber};

fn key(value: &str) -> ItemKey {
    ItemKey::new(value).unwrap()
}

fn price(value: f64) -> Price {
    Price::new(parse_number(&value.to_string()).unwrap()).unwrap()
}

fn discount(value: f64) -> DiscountRate {
    DiscountRate::new(parse_number(&value.to_string()).unwrap()).unwrap()
}

fn row_number(value: usize) -> SpreadsheetRowNumber {
    SpreadsheetRowNumber::new(value).unwrap()
}

fn mismatch() -> PriceMismatch {
    PriceMismatch {
        key: key("SOPEAG1062"),
        invoice_price: price(530.0),
        compared_invoice_price: price(377.784),
        system_price: price(377.78),
        system_file: "/tmp/sistema_EAG.xlsx".to_string(),
        system_sheet: "Report".to_string(),
        invoice_row_number: row_number(2),
        system_row_number: row_number(595),
        percentage_formula: "precio_usado / precio_sistema * 100 - 100".to_string(),
        percentage_result: PercentageDelta::new(parse_number("0").unwrap()),
    }
}

fn summary(rows: usize, mismatches: usize, missing: usize, multiple: usize) -> ReviewSummary {
    ReviewSummary {
        total_rows_reviewed: rows,
        total_price_mismatches: mismatches,
        total_missing_keys: missing,
        total_multiple_matches: multiple,
    }
}

#[test]
fn shows_discount_context_only_when_present() {
    let report = ReviewReport {
        invoice_file: "/tmp/factura_47094.xls".to_string(),
        system_files: vec!["/tmp/sistema_EAG.xlsx".to_string()],
        discounts: vec![discount(19.0), discount(12.0)],
        price_mismatches: vec![mismatch()],
        missing_keys: vec![],
        multiple_matches: vec![],
        summary: summary(1, 1, 0, 0),
    };

    let text = render_text_report(&report);
    assert!(text.contains("  - precio original en factura: 530"));
    assert!(text.contains("  - precio con descuentos aplicados: 377.78"));
    assert!(!text.contains("  - precio en factura: 530"));
}

#[test]
fn full_report_layout() {
    let report = ReviewReport {
        invoice_file: "/tmp/factura.xls".to_string(),
        system_files: vec!["/tmp/EAG.xlsx".to_string(), "/tmp/ACC.xlsx".to_string()],
        discounts: vec![],
        price_mismatches: vec![mismatch(), mismatch()],
        missing_keys: vec![key("B")],
        multiple_matches: vec![MultipleMatch {
            key: key("D"),
            invoice_row_number: row_number(5),
            system_files: vec!["/tmp/ACC.xlsx".to_string()],
            system_rows: vec![row_number(10), row_number(11)],
        }],
        summary: summary(4, 2, 1, 1),
    };
    let expected = [
        "Factura: factura.xls",
        "Sistema: EAG.xlsx, ACC.xlsx",
        "",
        "1. Precios incorrectos",
        "- SOPEAG1062",
        "  - precio en factura: 530",
        "  - precio en sistema: 377.78",
        "  - archivo del sistema: sistema_EAG.xlsx",
        "  - resultado porcentual: 0%",
        "",
        "- SOPEAG1062",
        "  - precio en factura: 530",
        "  - precio en sistema: 377.78",
        "  - archivo del sistema: sistema_EAG.xlsx",
        "  - resultado porcentual: 0%",
        "",
        "2. Claves no encontradas",
        "- B",
        "",
        "3. Coincidencias múltiples",
        "- D",
        "  - fila en factura: 5",
        "  - archivo(s) del sistema: ACC.xlsx",
        "  - fila(s) del sistema: 10, 11",
        "",
        "4. Resumen final",
        "- total de filas revisadas: 4",
        "- total de precios incorrectos: 2",
        "- total de claves no encontradas: 1",
        "- total de coincidencias múltiples: 1",
    ]
    .join("\n");
    assert_eq!(render_text_report(&report), expected);
}

#[test]
fn empty_report_says_none() {
    let report = ReviewReport {
        invoice_file: "f.xls".to_string(),
        system_files: vec![],
        discounts: vec![],
        price_mismatches: vec![],
        missing_keys: vec![],
        multiple_matches: vec![],
        summary: summary(0, 0, 0, 0),
    };
    let text = render_text_report(&report);
    assert!(text.contains("1. Precios incorrectos\n- Ninguno\n"));
    assert!(text.contains("2. Claves no encontradas\n- Ninguna\n"));
    assert!(text.contains("3. Coincidencias múltiples\n- Ninguna\n"));
    assert!(text.starts_with("Factura: f.xls\nSistema: \n"));
}

#[test]
fn discounted_price_line_rounds_like_the_variation() {
    let mut m = mismatch();
    m.invoice_price = Price::new(parse_number("-0.25").unwrap()).unwrap();
    m.compared_invoice_price = Price::new(parse_number("-0.125").unwrap()).unwrap();
    let report = ReviewReport {
        invoice_file: "f.xls".to_string(),
        system_files: vec![],
        discounts: vec![discount(50.0)],
        price_mismatches: vec![m],
        missing_keys: vec![],
        multiple_matches: vec![],
        summary: summary(1, 1, 0, 0),
    };
    let text = render_text_report(&report);
    assert!(text.contains("  - precio con descuentos aplicados: -0.12\n"));
    assert!(text.contains("  - precio original en factura: -0.25\n"));
}
