//! Reading, rounding and printing the numbers of a review.

use vstd::prelude::*;
use crate::decimal::{
    decimal_text, normalize, normalize_figure, rounded_value, variation_figure, Decimal, Figure,
    FigureValue,
};
use crate::numeral::{denotes, parse_finite, parse_finite_chars};
use crate::text::{chars_of, string_from_chars, trim_bounds, trimmed};

verus! {

/// The characters that a number may carry around its digits and that are
/// ignored when it is read: currency and percent signs, blanks and the
/// thousands separator.
pub open spec fn is_number_noise(c: char) -> bool {
    c == '$' || c == '%' || c == ' ' || c == '\t' || c == '\n' || c == '\r' || c == ','
}

/// `s` without its noise characters.
pub open spec fn without_noise(s: Seq<char>) -> Seq<char>
    decreases s.len(),
{
    if s.len() == 0 {
        s
    } else if is_number_noise(s.last()) {
        without_noise(s.drop_last())
    } else {
        without_noise(s.drop_last()).push(s.last())
    }
}

proof fn lemma_without_noise_len(s: Seq<char>)
    ensures
        without_noise(s).len() <= s.len(),
    decreases s.len(),
{
    if s.len() > 0 {
        lemma_without_noise_len(s.drop_last());
    }
}

/// The number that a cell text holds: trimmed, without noise characters,
/// then read as an exact decimal in the grammar of `f64::from_str`; nothing
/// when no text is left, the text is not in that grammar, or the
/// value is not finite.
pub open spec fn parsed_number(s: Seq<char>) -> Option<crate::decimal::DecimalValue> {
    let t = without_noise(trimmed(s));
    if t.len() == 0 {
        None
    } else {
        parse_finite(t)
    }
}

/// Reads a number from a cell text such as `$1,234.50`.
pub fn parse_number(value: &str) -> (r: Option<Decimal>)
    ensures
        denotes(r, parsed_number(value@)),
{
    let c = chars_of(value);
    let (a, b) = trim_bounds(&c);
    let ghost t = c@.subrange(a as int, b as int);
    let mut out: Vec<char> = Vec::new();
    let mut i: usize = a;
    while i < b
        invariant
            a <= i <= b <= c.len(),
            t == c@.subrange(a as int, b as int),
            out@ == without_noise(t.take(i - a)),
        decreases b - i,
    {
        let ch = c[i];
        proof {
            let u = t.take(i - a + 1);
            assert(u.drop_last() =~= t.take(i - a));
            assert(u.last() == ch);
        }
        if !(ch == '$' || ch == '%' || ch == ' ' || ch == '\t' || ch == '\n' || ch == '\r' || ch
            == ',') {
            out.push(ch);
        }
        i = i + 1;
    }
    proof {
        assert(t.take(b - a) =~= t);
        lemma_without_noise_len(t);
    }
    if out.len() == 0 {
        return None;
    }
    parse_finite_chars(&out)
}

/// `value` rounded to `decimals` fractional digits as
/// `((value + f64::EPSILON) * 10^decimals).round() / 10^decimals` rounds it,
/// in exact arithmetic (see `rounded_value`).
pub fn round_number(value: &Decimal, decimals: u32) -> (r: Decimal)
    ensures
        r@ == normalize(rounded_value(value@, decimals as nat)),
{
    value.round_to(decimals)
}

/// The shortest decimal text of `value`: no trailing fractional zeros, and no
/// point for a whole number.
pub fn format_number(value: &Decimal) -> (r: String)
    ensures
        r@ == decimal_text(normalize(value@)),
{
    value.to_text()
}

/// The text of a figure, in the layout in which Rust prints a float.
pub open spec fn figure_text(f: FigureValue) -> Seq<char> {
    match f {
        FigureValue::Finite(v) => decimal_text(normalize(v)),
        FigureValue::Infinite { negative } => if negative {
            seq!['-', 'i', 'n', 'f']
        } else {
            seq!['i', 'n', 'f']
        },
        FigureValue::NotANumber => seq!['N', 'a', 'N'],
    }
}

/// The text of a figure: its shortest decimal text, `inf`, `-inf` or `NaN`.
pub fn format_figure(value: &Figure) -> (r: String)
    ensures
        r@ == figure_text(value@),
{
    match value {
        Figure::Finite(d) => d.to_text(),
        Figure::Infinite { negative } => {
            let mut c: Vec<char> = Vec::new();
            if *negative {
                c.push('-');
            }
            c.push('i');
            c.push('n');
            c.push('f');
            proof {
                if *negative {
                    assert(c@ =~= seq!['-', 'i', 'n', 'f']);
                } else {
                    assert(c@ =~= seq!['i', 'n', 'f']);
                }
            }
            string_from_chars(&c)
        },
        Figure::NotANumber => {
            let mut c: Vec<char> = Vec::new();
            c.push('N');
            c.push('a');
            c.push('N');
            assert(c@ =~= seq!['N', 'a', 'N']);
            string_from_chars(&c)
        },
    }
}

/// `(invoice_price / system_price) * 100 - 100`, rounded to two decimals.
pub fn calculate_percentage_variation(invoice_price: &Decimal, system_price: &Decimal) -> (r:
    Figure)
    ensures
        r@ == normalize_figure(variation_figure(invoice_price@, system_price@)),
{
    invoice_price.variation_against(system_price)
}

} // verus!
