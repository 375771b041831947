//! The review of an invoice against the system price lists.

use vstd::prelude::*;
use crate::decimal::{
    normalize, normalize_figure, signed, value_eq, value_less, variation_figure, Decimal,
    DecimalValue, FigureValue, Order,
};
use crate::discounts::{
    calculate_discounted_price, copy_discounts, discount_scale, discount_values,
    discounted_value,
};
use crate::natural::pow10;
use crate::matching::{
    contains_path, deref_rows, first_file_matches, first_paths, group_of,
    group_rows_by_file, resolution_rows, resolve_system_match, row_numbers, rows_in_file,
    source_files, texts, FileRows, InvoiceRow, MatchResolution, SystemRow,
};
use crate::types::{
    DiscountRate, ItemKey, PercentageDelta, Price, SensitivityThreshold, SpreadsheetRowNumber,
};

verus! {

/// The formula of the percentage variation, as reports name it.
pub open spec fn formula_text() -> Seq<char> {
    "precio_usado / precio_sistema * 100 - 100"@
}

/// The formula of the percentage variation.
pub fn percentage_formula() -> (r: String)
    ensures
        r@ == formula_text(),
{
    "precio_usado / precio_sistema * 100 - 100".to_owned()
}

/// An invoice price that differs from the system price.
#[derive(Debug, Clone, PartialEq)]
pub struct PriceMismatch {
    pub key: ItemKey,
    pub invoice_price: Price,
    pub compared_invoice_price: Price,
    pub system_price: Price,
    pub system_file: String,
    pub system_sheet: String,
    pub invoice_row_number: SpreadsheetRowNumber,
    pub system_row_number: SpreadsheetRowNumber,
    pub percentage_formula: String,
    pub percentage_result: PercentageDelta,
}

/// The content of a `PriceMismatch`.
pub struct MismatchView {
    pub key: Seq<char>,
    pub invoice_price: DecimalValue,
    pub compared_invoice_price: DecimalValue,
    pub system_price: DecimalValue,
    pub system_file: Seq<char>,
    pub system_sheet: Seq<char>,
    pub invoice_row_number: nat,
    pub system_row_number: nat,
    pub percentage_formula: Seq<char>,
    pub percentage_result: FigureValue,
}

impl View for PriceMismatch {
    type V = MismatchView;

    open spec fn view(&self) -> MismatchView {
        MismatchView {
            key: self.key@,
            invoice_price: self.invoice_price@,
            compared_invoice_price: self.compared_invoice_price@,
            system_price: self.system_price@,
            system_file: self.system_file@,
            system_sheet: self.system_sheet@,
            invoice_row_number: self.invoice_row_number@,
            system_row_number: self.system_row_number@,
            percentage_formula: self.percentage_formula@,
            percentage_result: self.percentage_result@,
        }
    }
}

/// An invoice key that the deciding system file holds more than once.
#[derive(Debug, Clone, PartialEq, Eq)]
pub struct MultipleMatch {
    pub key: ItemKey,
    pub invoice_row_number: SpreadsheetRowNumber,
    pub system_files: Vec<String>,
    pub system_rows: Vec<SpreadsheetRowNumber>,
}

/// The content of a `MultipleMatch`.
pub struct MultipleMatchView {
    pub key: Seq<char>,
    pub invoice_row_number: nat,
    pub system_files: Seq<Seq<char>>,
    pub system_rows: Seq<nat>,
}

/// The row numbers of a list of row numbers.
pub open spec fn numbers(s: Seq<SpreadsheetRowNumber>) -> Seq<nat> {
    s.map_values(|n: SpreadsheetRowNumber| n@)
}

impl View for MultipleMatch {
    type V = MultipleMatchView;

    open spec fn view(&self) -> MultipleMatchView {
        MultipleMatchView {
            key: self.key@,
            invoice_row_number: self.invoice_row_number@,
            system_files: texts(self.system_files@),
            system_rows: numbers(self.system_rows@),
        }
    }
}

/// The totals of a review.
#[derive(Debug, Clone, Copy, PartialEq, Eq, Structural)]
pub struct ReviewSummary {
    pub total_rows_reviewed: usize,
    pub total_price_mismatches: usize,
    pub total_missing_keys: usize,
    pub total_multiple_matches: usize,
}

/// The outcome of a review.
#[derive(Debug, Clone, PartialEq)]
pub struct ReviewReport {
    pub invoice_file: String,
    pub system_files: Vec<String>,
    pub discounts: Vec<DiscountRate>,
    pub price_mismatches: Vec<PriceMismatch>,
    pub missing_keys: Vec<ItemKey>,
    pub multiple_matches: Vec<MultipleMatch>,
    pub summary: ReviewSummary,
}

/// The discounts to apply and the threshold under which variations are not
/// reported.
#[derive(Debug, Clone, PartialEq)]
pub struct ReviewInvoiceConfig {
    pub discounts: Vec<DiscountRate>,
    pub sensitivity: Option<SensitivityThreshold>,
}

impl Default for ReviewInvoiceConfig {
    fn default() -> (r: Self)
        ensures
            r.discounts@.len() == 0,
            r.sensitivity is None,
    {
        ReviewInvoiceConfig { discounts: Vec::new(), sensitivity: None }
    }
}

/// The threshold of an optional sensitivity.
pub open spec fn sensitivity_value(s: Option<SensitivityThreshold>) -> Option<DecimalValue> {
    match s {
        Some(t) => Some(t@),
        None => None,
    }
}

/// A variation in `(threshold, 0]` is not reported.
pub open spec fn hidden_by(pct: FigureValue, sensitivity: Option<DecimalValue>) -> bool {
    match sensitivity {
        None => false,
        Some(t) => match pct {
            FigureValue::Finite(v) => signed(v) <= 0 && value_less(t, v),
            _ => false,
        },
    }
}

/// The keys of a list of keys.
pub open spec fn key_texts(s: Seq<ItemKey>) -> Seq<Seq<char>> {
    s.map_values(|k: ItemKey| k@)
}

/// The price compared with the system: the invoice price after the discounts.
pub open spec fn compared_price(inv: InvoiceRow, ds: Seq<DecimalValue>) -> DecimalValue {
    normalize(discounted_value(inv.price@, ds))
}

/// The mismatch that an invoice row gives, if any: its key matched exactly
/// one system row, whose price differs from the compared price by a
/// variation that the sensitivity does not hide.
pub open spec fn row_mismatch(
    inv: InvoiceRow,
    matches: Seq<SystemRow>,
    ds: Seq<DecimalValue>,
    sensitivity: Option<DecimalValue>,
) -> Option<MismatchView> {
    if matches.len() != 1 {
        None
    } else {
        let sys = matches[0];
        let used = compared_price(inv, ds);
        let pct = normalize_figure(variation_figure(used, sys.price@));
        if value_eq(used, sys.price@) || hidden_by(pct, sensitivity) {
            None
        } else {
            Some(
                MismatchView {
                    key: inv.key@,
                    invoice_price: inv.price@,
                    compared_invoice_price: used,
                    system_price: sys.price@,
                    system_file: sys.source_file@,
                    system_sheet: sys.source_sheet@,
                    invoice_row_number: inv.row_number@,
                    system_row_number: sys.row_number@,
                    percentage_formula: formula_text(),
                    percentage_result: pct,
                },
            )
        }
    }
}

/// The multiple match that an invoice row gives, if its key matched several
/// system rows.
pub open spec fn row_multiple(inv: InvoiceRow, matches: Seq<SystemRow>) -> Option<
    MultipleMatchView,
> {
    if matches.len() >= 2 {
        Some(
            MultipleMatchView {
                key: inv.key@,
                invoice_row_number: inv.row_number@,
                system_files: first_paths(source_files(matches)),
                system_rows: row_numbers(matches),
            },
        )
    } else {
        None
    }
}

/// The mismatches of the invoice rows, in order.
pub open spec fn expected_mismatches(
    invs: Seq<InvoiceRow>,
    rows: Seq<SystemRow>,
    files: Seq<Seq<char>>,
    ds: Seq<DecimalValue>,
    sensitivity: Option<DecimalValue>,
) -> Seq<MismatchView>
    decreases invs.len(),
{
    if invs.len() == 0 {
        Seq::empty()
    } else {
        let prev = expected_mismatches(invs.drop_last(), rows, files, ds, sensitivity);
        let inv = invs.last();
        match row_mismatch(inv, first_file_matches(rows, files, inv.key@), ds, sensitivity) {
            Some(m) => prev.push(m),
            None => prev,
        }
    }
}

/// The keys of the invoice rows that no system file holds, in order.
pub open spec fn expected_missing(
    invs: Seq<InvoiceRow>,
    rows: Seq<SystemRow>,
    files: Seq<Seq<char>>,
) -> Seq<Seq<char>>
    decreases invs.len(),
{
    if invs.len() == 0 {
        Seq::empty()
    } else {
        let prev = expected_missing(invs.drop_last(), rows, files);
        let inv = invs.last();
        if first_file_matches(rows, files, inv.key@).len() == 0 {
            prev.push(inv.key@)
        } else {
            prev
        }
    }
}

/// The multiple matches of the invoice rows, in order.
pub open spec fn expected_multiples(
    invs: Seq<InvoiceRow>,
    rows: Seq<SystemRow>,
    files: Seq<Seq<char>>,
) -> Seq<MultipleMatchView>
    decreases invs.len(),
{
    if invs.len() == 0 {
        Seq::empty()
    } else {
        let prev = expected_multiples(invs.drop_last(), rows, files);
        let inv = invs.last();
        match row_multiple(inv, first_file_matches(rows, files, inv.key@)) {
            Some(m) => prev.push(m),
            None => prev,
        }
    }
}

/// Whether the sensitivity hides the variation.
pub fn is_hidden_by_sensitivity(
    percentage_result: &PercentageDelta,
    sensitivity: &Option<SensitivityThreshold>,
) -> (r: bool)
    ensures
        r == hidden_by(percentage_result@, sensitivity_value(*sensitivity)),
{
    match sensitivity {
        None => false,
        Some(t) => match percentage_result.figure() {
            crate::decimal::Figure::Finite(v) => {
                let zero = Decimal::zero(false);
                let threshold = t.value();
                let above_zero = v.compare(&zero) == Order::Greater;
                let above_threshold = threshold.compare(v) == Order::Less;
                proof {
                    crate::decimal::lemma_compare_at(zero@, v@, v@.scale);
                    crate::decimal::lemma_value_at_own_scale(v@);
                    crate::decimal::lemma_value_at_zero(zero@, v@.scale);
                }
                !above_zero && above_threshold
            },
            _ => false,
        },
    }
}

proof fn lemma_resolution_is_first_match<'a>(
    groups: Seq<FileRows<'a>>,
    rows: Seq<SystemRow>,
    files: Seq<Seq<char>>,
    key: Seq<char>,
)
    requires
        forall|f: Seq<char>| #[trigger] group_of(groups, f) == rows_in_file(rows, f),
    ensures
        resolution_rows(groups, files, key) == first_file_matches(rows, files, key),
    decreases files.len(),
{
    if files.len() > 0 {
        assert(group_of(groups, files[0]) == rows_in_file(rows, files[0]));
        lemma_resolution_is_first_match(groups, rows, files.drop_first(), key);
    }
}

/// A copy of a list of texts.
pub fn copy_texts(v: &[String]) -> (r: Vec<String>)
    ensures
        texts(r@) == texts(v@),
{
    let mut out: Vec<String> = Vec::new();
    let mut i: usize = 0;
    while i < v.len()
        invariant
            i <= v.len(),
            out@.len() == i,
            forall|k: int| 0 <= k < i ==> (#[trigger] out@[k])@ == v@[k]@,
        decreases v.len() - i,
    {
        out.push(v[i].clone());
        i = i + 1;
    }
    assert(texts(out@) =~= texts(v@));
    out
}

/// The multiple match of an invoice row with the rows that match its key.
fn multiple_match_of<'a>(inv: &InvoiceRow, matches: &Vec<&'a SystemRow>) -> (r: MultipleMatch)
    ensures
        matches@.len() >= 2 ==> row_multiple(*inv, deref_rows(matches@)) == Some(r@),
{
    let ghost m = deref_rows(matches@);
    let mut unique_files: Vec<String> = Vec::new();
    let mut numbers_out: Vec<SpreadsheetRowNumber> = Vec::new();
    let mut t: usize = 0;
    while t < matches.len()
        invariant
            t <= matches@.len(),
            m == deref_rows(matches@),
            texts(unique_files@) == first_paths(source_files(m.take(t as int))),
            numbers(numbers_out@) == row_numbers(m.take(t as int)),
            numbers_out@.len() == t,
        decreases matches@.len() - t,
    {
        let row = matches[t];
        proof {
            assert(source_files(m.take(t + 1)).drop_last() =~= source_files(m.take(t as int)));
            assert(source_files(m.take(t + 1)).last() == row.source_file@);
        }
        if !contains_path(&unique_files, row.source_file.as_str()) {
            unique_files.push(row.source_file.clone());
            proof {
                assert(texts(unique_files@) =~= first_paths(
                    source_files(m.take(t as int)),
                ).push(row.source_file@));
            }
        }
        let ghost before = numbers_out@;
        numbers_out.push(row.row_number);
        proof {
            assert(m.take(t + 1) =~= m.take(t as int).push(*row));
            assert forall|k: int| 0 <= k < t implies numbers(numbers_out@)[k] == row_numbers(
                m.take(t + 1),
            )[k] by {
                assert(numbers_out@[k] == before[k]);
                assert(numbers(before)[k] == row_numbers(m.take(t as int))[k]);
            }
            assert(numbers(numbers_out@) =~= row_numbers(m.take(t + 1)));
        }
        t = t + 1;
    }
    proof {
        assert(m.take(m.len() as int) =~= m);
    }
    MultipleMatch {
        key: inv.key.clone(),
        invoice_row_number: inv.row_number,
        system_files: unique_files,
        system_rows: numbers_out,
    }
}

/// The mismatch of an invoice row with the one system row that matches its
/// key, if the prices differ by a variation that is not hidden.
fn mismatch_of(inv: &InvoiceRow, sys: &SystemRow, config: &ReviewInvoiceConfig) -> (r: Option<
    PriceMismatch,
>)
    requires
        inv.price@.scale + discount_scale(discount_values(config.discounts@)) <= usize::MAX,
    ensures
        r matches Some(x) ==> row_mismatch(
            *inv,
            seq![*sys],
            discount_values(config.discounts@),
            sensitivity_value(config.sensitivity),
        ) == Some(x@),
        r is None ==> row_mismatch(
            *inv,
            seq![*sys],
            discount_values(config.discounts@),
            sensitivity_value(config.sensitivity),
        ) is None,
{
    let discounted = calculate_discounted_price(inv.price.clone(), config.discounts.as_slice());
    let equal = discounted.adjusted_price.amount().compare(sys.price.amount()) == Order::Equal;
    if equal {
        return None;
    }
    let percentage_result = PercentageDelta::from_prices(&discounted.adjusted_price, &sys.price);
    if is_hidden_by_sensitivity(&percentage_result, &config.sensitivity) {
        return None;
    }
    Some(
        PriceMismatch {
            key: inv.key.clone(),
            invoice_price: discounted.original_price,
            compared_invoice_price: discounted.adjusted_price,
            system_price: sys.price.clone(),
            system_file: sys.source_file.clone(),
            system_sheet: sys.source_sheet.clone(),
            invoice_row_number: inv.row_number,
            system_row_number: sys.row_number,
            percentage_formula: percentage_formula(),
            percentage_result,
        },
    )
}

/// Reviews the invoice rows against the system rows: each invoice key is
/// looked up in the system files in the order given, and the report lists
/// the differing prices, the keys not found and the keys found more than
/// once in the deciding file.
pub fn review_invoice(
    invoice_file: &str,
    invoice_rows: &[InvoiceRow],
    system_files: &[String],
    system_rows: &[SystemRow],
    config: ReviewInvoiceConfig,
) -> (r: ReviewReport)
    requires
        forall|i: int|
            0 <= i < invoice_rows@.len() ==> (#[trigger] invoice_rows@[i]).price@.scale
                + discount_scale(discount_values(config.discounts@)) <= usize::MAX,
    ensures
        r.invoice_file@ == invoice_file@,
        texts(r.system_files@) == texts(system_files@),
        discount_values(r.discounts@) == discount_values(config.discounts@),
        r.price_mismatches@.map_values(|m: PriceMismatch| m@) == expected_mismatches(
            invoice_rows@,
            system_rows@,
            texts(system_files@),
            discount_values(config.discounts@),
            sensitivity_value(config.sensitivity),
        ),
        key_texts(r.missing_keys@) == expected_missing(
            invoice_rows@,
            system_rows@,
            texts(system_files@),
        ),
        r.multiple_matches@.map_values(|m: MultipleMatch| m@) == expected_multiples(
            invoice_rows@,
            system_rows@,
            texts(system_files@),
        ),
        r.summary.total_rows_reviewed == invoice_rows@.len(),
        r.summary.total_price_mismatches == r.price_mismatches@.len(),
        r.summary.total_missing_keys == r.missing_keys@.len(),
        r.summary.total_multiple_matches == r.multiple_matches@.len(),
        r.price_mismatches@.len() + r.missing_keys@.len() + r.multiple_matches@.len()
            <= invoice_rows@.len(),
{
    let ghost invs = invoice_rows@;
    let ghost rows = system_rows@;
    let ghost files = texts(system_files@);
    let ghost ds = discount_values(config.discounts@);
    let ghost sens = sensitivity_value(config.sensitivity);
    let groups = group_rows_by_file(system_rows);
    let mut price_mismatches: Vec<PriceMismatch> = Vec::new();
    let mut missing_keys: Vec<ItemKey> = Vec::new();
    let mut multiple_matches: Vec<MultipleMatch> = Vec::new();
    let mut i: usize = 0;
    while i < invoice_rows.len()
        invariant
            i <= invoice_rows@.len(),
            invs == invoice_rows@,
            rows == system_rows@,
            files == texts(system_files@),
            ds == discount_values(config.discounts@),
            sens == sensitivity_value(config.sensitivity),
            forall|f: Seq<char>| #[trigger] group_of(groups@, f) == rows_in_file(rows, f),
            forall|k: int|
                0 <= k < invs.len() ==> (#[trigger] invs[k]).price@.scale + discount_scale(ds)
                    <= usize::MAX,
            price_mismatches@.map_values(|m: PriceMismatch| m@) == expected_mismatches(
                invs.take(i as int),
                rows,
                files,
                ds,
                sens,
            ),
            key_texts(missing_keys@) == expected_missing(invs.take(i as int), rows, files),
            multiple_matches@.map_values(|m: MultipleMatch| m@) == expected_multiples(
                invs.take(i as int),
                rows,
                files,
            ),
        decreases invoice_rows@.len() - i,
    {
        let inv = &invoice_rows[i];
        let ghost m = first_file_matches(rows, files, inv.key@);
        proof {
            assert(invs.take(i + 1).drop_last() =~= invs.take(i as int));
            assert(invs.take(i + 1).last() == *inv);
            lemma_resolution_is_first_match(groups@, rows, files, inv.key@);
        }
        let resolution = resolve_system_match(&inv.key, &groups, system_files);
        match resolution {
            MatchResolution::NotFound => {
                missing_keys.push(inv.key.clone());
                proof {
                    assert(key_texts(missing_keys@) =~= expected_missing(
                        invs.take(i as int),
                        rows,
                        files,
                    ).push(inv.key@));
                }
            },
            MatchResolution::Multiple(found) => {
                let entry = multiple_match_of(inv, &found);
                multiple_matches.push(entry);
                proof {
                    assert(multiple_matches@.map_values(|m: MultipleMatch| m@) =~= expected_multiples(
                        invs.take(i as int),
                        rows,
                        files,
                    ).push(entry@));
                }
            },
            MatchResolution::Found(sys) => {
                proof {
                    assert(m =~= seq![*sys]);
                }
                let outcome = mismatch_of(inv, sys, &config);
                match outcome {
                    Some(x) => {
                        let ghost xv = x@;
                        price_mismatches.push(x);
                        proof {
                            assert(price_mismatches@.map_values(|m: PriceMismatch| m@)
                                =~= expected_mismatches(invs.take(i as int), rows, files, ds, sens).push(
                                xv,
                            ));
                        }
                    },
                    None => {},
                }
            },
        }
        i = i + 1;
    }
    proof {
        assert(invs.take(invs.len() as int) =~= invs);
        lemma_rows_reported_once(invs, rows, files, ds, sens);
    }
    let summary = ReviewSummary {
        total_rows_reviewed: invoice_rows.len(),
        total_price_mismatches: price_mismatches.len(),
        total_missing_keys: missing_keys.len(),
        total_multiple_matches: multiple_matches.len(),
    };
    ReviewReport {
        invoice_file: invoice_file.to_owned(),
        system_files: copy_texts(system_files),
        discounts: copy_discounts(config.discounts.as_slice()),
        price_mismatches,
        missing_keys,
        multiple_matches,
        summary,
    }
}

/// Every invoice row lands in at most one list of the report: a mismatch, a
/// missing key or a multiple match.
pub proof fn lemma_rows_reported_once(
    invs: Seq<InvoiceRow>,
    rows: Seq<SystemRow>,
    files: Seq<Seq<char>>,
    ds: Seq<DecimalValue>,
    sensitivity: Option<DecimalValue>,
)
    ensures
        expected_mismatches(invs, rows, files, ds, sensitivity).len() + expected_missing(
            invs,
            rows,
            files,
        ).len() + expected_multiples(invs, rows, files).len() <= invs.len(),
    decreases invs.len(),
{
    if invs.len() > 0 {
        lemma_rows_reported_once(invs.drop_last(), rows, files, ds, sensitivity);
    }
}

/// A reported mismatch compares prices that differ, with the formula named
/// and a variation that the sensitivity does not hide.
pub proof fn lemma_reported_mismatches(
    invs: Seq<InvoiceRow>,
    rows: Seq<SystemRow>,
    files: Seq<Seq<char>>,
    ds: Seq<DecimalValue>,
    sensitivity: Option<DecimalValue>,
)
    ensures
        forall|k: int|
            0 <= k < expected_mismatches(invs, rows, files, ds, sensitivity).len() ==> {
                let m = #[trigger] expected_mismatches(invs, rows, files, ds, sensitivity)[k];
                &&& !value_eq(m.compared_invoice_price, m.system_price)
                &&& m.percentage_result == normalize_figure(
                    variation_figure(m.compared_invoice_price, m.system_price),
                )
                &&& !hidden_by(m.percentage_result, sensitivity)
                &&& m.percentage_formula == formula_text()
            },
    decreases invs.len(),
{
    if invs.len() > 0 {
        lemma_reported_mismatches(invs.drop_last(), rows, files, ds, sensitivity);
        let prev = expected_mismatches(invs.drop_last(), rows, files, ds, sensitivity);
        let cur = expected_mismatches(invs, rows, files, ds, sensitivity);
        assert forall|k: int| 0 <= k < prev.len() implies cur[k] == prev[k] by {}
    }
}

/// The sensitivity only hides variations in `(threshold, 0]`: whatever it
/// lets through is reported as without it, and a variation above zero (or
/// not finite) is reported whatever the threshold.
pub proof fn lemma_sensitivity_hides_only_small_drops(
    inv: InvoiceRow,
    matches: Seq<SystemRow>,
    ds: Seq<DecimalValue>,
    threshold: DecimalValue,
)
    ensures
        row_mismatch(inv, matches, ds, Some(threshold)) is Some ==> row_mismatch(
            inv,
            matches,
            ds,
            Some(threshold),
        ) == row_mismatch(inv, matches, ds, None),
        (row_mismatch(inv, matches, ds, None) matches Some(x) && !(
        x.percentage_result matches FigureValue::Finite(v) && signed(v) <= 0)) ==> row_mismatch(
            inv,
            matches,
            ds,
            Some(threshold),
        ) == row_mismatch(inv, matches, ds, None),
{
}

/// Whether every invoice price can take the discounts within the scales that
/// a `usize` counts, as `review_invoice` needs.
pub fn discounts_fit(invoice_rows: &[InvoiceRow], discounts: &[DiscountRate]) -> (r: bool)
    ensures
        r == forall|i: int|
            0 <= i < invoice_rows@.len() ==> (#[trigger] invoice_rows@[i]).price@.scale
                + discount_scale(discount_values(discounts@)) <= usize::MAX,
{
    let ghost ds = discount_values(discounts@);
    let mut total: usize = 0;
    let mut i: usize = 0;
    while i < discounts.len()
        invariant
            i <= discounts@.len(),
            ds == discount_values(discounts@),
            total == discount_scale(ds.take(i as int)),
        decreases discounts@.len() - i,
    {
        let s = discounts[i].value().scale();
        proof {
            assert(ds.take(i + 1).drop_last() =~= ds.take(i as int));
            assert(ds.take(i + 1).last() == discounts@[i as int]@);
        }
        if s > usize::MAX - 2 || total > usize::MAX - 2 - s {
            proof {
                crate::discounts::lemma_discount_scale_prefix(ds, i + 1);
                if invoice_rows@.len() > 0 {
                    assert(invoice_rows@[0].price@.scale + discount_scale(ds) > usize::MAX);
                }
            }
            return invoice_rows.len() == 0;
        }
        total = total + s + 2;
        i = i + 1;
    }
    proof {
        assert(ds.take(discounts@.len() as int) =~= ds);
    }
    let mut k: usize = 0;
    while k < invoice_rows.len()
        invariant
            k <= invoice_rows@.len(),
            total == discount_scale(ds),
            ds == discount_values(discounts@),
            forall|j: int|
                0 <= j < k ==> (#[trigger] invoice_rows@[j]).price@.scale + discount_scale(ds)
                    <= usize::MAX,
        decreases invoice_rows@.len() - k,
    {
        if invoice_rows[k].price.amount().scale() > usize::MAX - total {
            return false;
        }
        k = k + 1;
    }
    true
}

/// The sensitivity `t` hides exactly the finite variations `v` with
/// `t < v <= 0`, the threshold taken as given (compared by cross products
/// over the two scales, with nothing rounded); with no sensitivity, and for an
/// infinite or undefined variation, nothing is hidden.
pub proof fn lemma_hidden_exactly_between(v: DecimalValue, t: DecimalValue, pct: FigureValue)
    ensures
        hidden_by(FigureValue::Finite(v), Some(t)) <==> (signed(v) <= 0 && signed(t) * pow10(
            v.scale,
        ) < signed(v) * pow10(t.scale)),
        !hidden_by(pct, None),
        !(pct is Finite) ==> !hidden_by(pct, Some(t)),
{
    crate::decimal::lemma_value_less_cross(t, v);
}

/// A mismatch is reported for an invoice row exactly when its key matched
/// one system row whose price differs from the discounted invoice price by a
/// variation that the sensitivity does not hide. It shows the invoice price as
/// read, before any discount, whatever the discounts are; the discounted price
/// that was compared; and the matched row's own price, file, sheet and row.
pub proof fn lemma_mismatch_shows_row_prices(
    inv: InvoiceRow,
    matches: Seq<SystemRow>,
    ds: Seq<DecimalValue>,
    sensitivity: Option<DecimalValue>,
)
    ensures
        row_mismatch(inv, matches, ds, sensitivity) is Some <==> (matches.len() == 1
            && !value_eq(normalize(discounted_value(inv.price@, ds)), matches[0].price@)
            && !hidden_by(
            normalize_figure(
                variation_figure(normalize(discounted_value(inv.price@, ds)), matches[0].price@),
            ),
            sensitivity,
        )),
        row_mismatch(inv, matches, ds, sensitivity) matches Some(m) ==> {
            &&& m.key == inv.key@
            &&& m.invoice_price == inv.price@
            &&& m.compared_invoice_price == normalize(discounted_value(inv.price@, ds))
            &&& value_eq(m.compared_invoice_price, discounted_value(inv.price@, ds))
            &&& m.system_price == matches[0].price@
            &&& m.system_file == matches[0].source_file@
            &&& m.system_sheet == matches[0].source_sheet@
            &&& m.invoice_row_number == inv.row_number@
            &&& m.system_row_number == matches[0].row_number@
            &&& m.percentage_result == normalize_figure(
                variation_figure(m.compared_invoice_price, m.system_price),
            )
        },
{
    crate::decimal::lemma_normalize(discounted_value(inv.price@, ds));
}

/// Every mismatch of a review belongs to one invoice row: it carries that
/// row's key, row number and price as read (before the discounts), and that
/// price discounted as the compared price.
pub proof fn lemma_mismatches_show_invoice_prices(
    invs: Seq<InvoiceRow>,
    rows: Seq<SystemRow>,
    files: Seq<Seq<char>>,
    ds: Seq<DecimalValue>,
    sensitivity: Option<DecimalValue>,
)
    ensures
        forall|k: int|
            0 <= k < expected_mismatches(invs, rows, files, ds, sensitivity).len() ==> exists|
                j: int,
            |
                0 <= j < invs.len() && {
                    let m = #[trigger] expected_mismatches(invs, rows, files, ds, sensitivity)[k];
                    &&& m.key == (#[trigger] invs[j]).key@
                    &&& m.invoice_row_number == invs[j].row_number@
                    &&& m.invoice_price == invs[j].price@
                    &&& m.compared_invoice_price == normalize(discounted_value(invs[j].price@, ds))
                },
    decreases invs.len(),
{
    if invs.len() > 0 {
        let prev_invs = invs.drop_last();
        lemma_mismatches_show_invoice_prices(prev_invs, rows, files, ds, sensitivity);
        let prev = expected_mismatches(prev_invs, rows, files, ds, sensitivity);
        let cur = expected_mismatches(invs, rows, files, ds, sensitivity);
        let inv = invs.last();
        lemma_mismatch_shows_row_prices(
            inv,
            first_file_matches(rows, files, inv.key@),
            ds,
            sensitivity,
        );
        assert forall|k: int| 0 <= k < cur.len() implies exists|j: int|
            0 <= j < invs.len() && {
                let m = #[trigger] cur[k];
                &&& m.key == (#[trigger] invs[j]).key@
                &&& m.invoice_row_number == invs[j].row_number@
                &&& m.invoice_price == invs[j].price@
                &&& m.compared_invoice_price == normalize(discounted_value(invs[j].price@, ds))
            } by {
            if k < prev.len() {
                assert(cur[k] == prev[k]);
                let j = choose|j: int|
                    0 <= j < prev_invs.len() && {
                        let m = #[trigger] prev[k];
                        &&& m.key == (#[trigger] prev_invs[j]).key@
                        &&& m.invoice_row_number == prev_invs[j].row_number@
                        &&& m.invoice_price == prev_invs[j].price@
                        &&& m.compared_invoice_price == normalize(
                            discounted_value(prev_invs[j].price@, ds),
                        )
                    };
                assert(prev_invs[j] == invs[j]);
            } else {
                assert(invs[invs.len() - 1] == inv);
            }
        }
    }
}

} // verus!
