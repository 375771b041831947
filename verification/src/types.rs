//! The values that an invoice review reads and reports.

use vstd::prelude::*;
use crate::decimal::{signed, variation_figure, Decimal, DecimalValue, Figure, FigureValue, Order};
use crate::natural::pow10;
use crate::text::{chars_of, lemma_trimmed_twice, same_text, string_of_range, trim_bounds, trimmed};

verus! {

/// The key of an item: text with no surrounding white space, never empty.
#[derive(Debug, PartialEq, Eq, Hash)]
pub struct ItemKey(String);

impl View for ItemKey {
    type V = Seq<char>;

    closed spec fn view(&self) -> Seq<char> {
        self.0@
    }
}

impl ItemKey {
    #[verifier::type_invariant]
    spec fn well_formed(self) -> bool {
        self.0@.len() > 0 && trimmed(self.0@) == self.0@
    }

    /// The key of `value` with its surrounding white space removed, when
    /// anything is left.
    pub fn new(value: &str) -> (r: Option<ItemKey>)
        ensures
            r is None <==> trimmed(value@).len() == 0,
            r matches Some(k) ==> k@ == trimmed(value@),
    {
        let c = chars_of(value);
        let (a, b) = trim_bounds(&c);
        if a == b {
            return None;
        }
        let s = string_of_range(&c, a, b);
        proof {
            lemma_trimmed_twice(value@);
        }
        Some(ItemKey(s))
    }

    /// The text of the key.
    pub fn as_str(&self) -> (r: &str)
        ensures
            r@ == self@,
    {
        self.0.as_str()
    }

    /// Whether two keys are the same text.
    pub fn same_as(&self, other: &ItemKey) -> (r: bool)
        ensures
            r == (self@ == other@),
    {
        same_text(self.0.as_str(), other.0.as_str())
    }

    /// The text of the key, as a `String`.
    pub fn to_text(&self) -> (r: String)
        ensures
            r@ == self@,
    {
        self.0.clone()
    }
}

impl Clone for ItemKey {
    fn clone(&self) -> (r: Self)
        ensures
            r@ == self@,
    {
        proof {
            use_type_invariant(self);
        }
        ItemKey(self.0.clone())
    }
}

/// A 1-based row number of a spreadsheet.
#[derive(Debug, Clone, Copy, PartialEq, Eq, Hash)]
pub struct SpreadsheetRowNumber {
    value: usize,
}

impl View for SpreadsheetRowNumber {
    type V = nat;

    closed spec fn view(&self) -> nat {
        self.value as nat
    }
}

impl SpreadsheetRowNumber {
    #[verifier::type_invariant]
    spec fn well_formed(self) -> bool {
        self.value > 0
    }

    /// The row number `value`, unless it is zero.
    pub fn new(value: usize) -> (r: Option<SpreadsheetRowNumber>)
        ensures
            r is None <==> value == 0,
            r matches Some(n) ==> n@ == value,
    {
        if value == 0 {
            None
        } else {
            Some(SpreadsheetRowNumber { value })
        }
    }

    /// The row number, which is never zero.
    pub fn get(self) -> (r: usize)
        ensures
            r == self@,
            r > 0,
    {
        proof {
            use_type_invariant(&self);
        }
        self.value
    }
}

/// A price.
#[derive(Debug, PartialEq, Eq)]
pub struct Price(Decimal);

impl View for Price {
    type V = DecimalValue;

    closed spec fn view(&self) -> DecimalValue {
        self.0@
    }
}

impl Price {
    /// The price `value`. Every exact decimal is a finite price.
    pub fn new(value: Decimal) -> (r: Option<Price>)
        ensures
            r matches Some(p) && p@ == value@,
    {
        Some(Price(value))
    }

    /// The amount.
    pub fn value(&self) -> (r: Decimal)
        ensures
            r@ == self@,
            crate::decimal::canonical(r@),
    {
        self.0.duplicate()
    }

    /// The amount, borrowed.
    pub fn amount(&self) -> (r: &Decimal)
        ensures
            r@ == self@,
    {
        &self.0
    }
}

impl Clone for Price {
    fn clone(&self) -> (r: Self)
        ensures
            r@ == self@,
    {
        Price(self.0.duplicate())
    }
}

/// `v` lies strictly between 0 and 100.
pub open spec fn valid_discount(v: DecimalValue) -> bool {
    signed(v) > 0 && signed(v) < 100 * pow10(v.scale)
}

/// `v` is below zero.
pub open spec fn valid_sensitivity(v: DecimalValue) -> bool {
    signed(v) < 0
}

/// A percentage discount, strictly between 0 and 100.
#[derive(Debug, PartialEq, Eq)]
pub struct DiscountRate(Decimal);

impl View for DiscountRate {
    type V = DecimalValue;

    closed spec fn view(&self) -> DecimalValue {
        self.0@
    }
}

impl DiscountRate {
    #[verifier::type_invariant]
    spec fn well_formed(self) -> bool {
        valid_discount(self.0@)
    }

    /// The discount `value`, when it is above 0 and below 100.
    pub fn new(value: Decimal) -> (r: Option<DiscountRate>)
        ensures
            r is Some <==> valid_discount(value@),
            r matches Some(d) ==> d@ == value@,
    {
        let zero = Decimal::zero(false);
        let hundred = Decimal::from_u64(100);
        let above = value.compare(&zero) == Order::Greater;
        let below = value.compare(&hundred) == Order::Less;
        proof {
            crate::decimal::lemma_compare_at(zero@, value@, value@.scale);
            crate::decimal::lemma_compare_at(value@, hundred@, value@.scale);
            crate::decimal::lemma_value_at_own_scale(value@);
            crate::decimal::lemma_value_at_zero(zero@, value@.scale);
            assert(crate::decimal::value_at(hundred@, value@.scale) == 100 * pow10(value@.scale))
                by {
                assert((value@.scale - 0) as nat == value@.scale);
            }
        }
        if above && below {
            Some(DiscountRate(value))
        } else {
            None
        }
    }

    /// The percentage.
    pub fn value(&self) -> (r: Decimal)
        ensures
            r@ == self@,
            valid_discount(r@),
    {
        proof {
            use_type_invariant(self);
        }
        self.0.duplicate()
    }
}

impl Clone for DiscountRate {
    fn clone(&self) -> (r: Self)
        ensures
            r@ == self@,
    {
        proof {
            use_type_invariant(self);
        }
        DiscountRate(self.0.duplicate())
    }
}

/// A negative percentage: variations in `(threshold, 0]` are not reported.
#[derive(Debug, PartialEq, Eq)]
pub struct SensitivityThreshold(Decimal);

impl View for SensitivityThreshold {
    type V = DecimalValue;

    closed spec fn view(&self) -> DecimalValue {
        self.0@
    }
}

impl SensitivityThreshold {
    #[verifier::type_invariant]
    spec fn well_formed(self) -> bool {
        valid_sensitivity(self.0@)
    }

    /// The threshold `value`, when it is below zero.
    pub fn new(value: Decimal) -> (r: Option<SensitivityThreshold>)
        ensures
            r is Some <==> valid_sensitivity(value@),
            r matches Some(t) ==> t@ == value@,
    {
        let zero = Decimal::zero(false);
        let below = value.compare(&zero) == Order::Less;
        proof {
            crate::decimal::lemma_compare_at(value@, zero@, value@.scale);
            crate::decimal::lemma_value_at_own_scale(value@);
            crate::decimal::lemma_value_at_zero(zero@, value@.scale);
        }
        if below {
            Some(SensitivityThreshold(value))
        } else {
            None
        }
    }

    /// The threshold.
    pub fn value(&self) -> (r: Decimal)
        ensures
            r@ == self@,
            valid_sensitivity(r@),
    {
        proof {
            use_type_invariant(self);
        }
        self.0.duplicate()
    }
}

impl Clone for SensitivityThreshold {
    fn clone(&self) -> (r: Self)
        ensures
            r@ == self@,
    {
        proof {
            use_type_invariant(self);
        }
        SensitivityThreshold(self.0.duplicate())
    }
}

/// A percentage variation: a number, or infinity or not-a-number when the
/// system price is zero.
#[derive(Debug, PartialEq, Eq)]
pub struct PercentageDelta(Figure);

impl View for PercentageDelta {
    type V = FigureValue;

    closed spec fn view(&self) -> FigureValue {
        self.0@
    }
}

impl PercentageDelta {
    /// The variation `value`.
    pub fn new(value: Decimal) -> (r: PercentageDelta)
        ensures
            r@ == FigureValue::Finite(value@),
    {
        PercentageDelta(Figure::Finite(value))
    }

    /// The variation `value`, which may also be infinite or not a number.
    pub fn from_figure(value: Figure) -> (r: PercentageDelta)
        ensures
            r@ == value@,
    {
        PercentageDelta(value)
    }

    /// `(compared_invoice_price / system_price) * 100 - 100`, rounded to two decimals.
    pub fn from_prices(compared_invoice_price: &Price, system_price: &Price) -> (r: PercentageDelta)
        ensures
            r@ == crate::decimal::normalize_figure(
                variation_figure(compared_invoice_price@, system_price@),
            ),
    {
        PercentageDelta(compared_invoice_price.0.variation_against(&system_price.0))
    }

    /// The variation.
    pub fn value(&self) -> (r: Figure)
        ensures
            r@ == self@,
    {
        self.0.clone()
    }

    /// The variation, borrowed.
    pub fn figure(&self) -> (r: &Figure)
        ensures
            r@ == self@,
    {
        &self.0
    }
}

impl Clone for PercentageDelta {
    fn clone(&self) -> (r: Self)
        ensures
            r@ == self@,
    {
        PercentageDelta(self.0.clone())
    }
}

} // verus!
