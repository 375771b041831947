//! Successive percentage discounts on a price.

use vstd::prelude::*;
use crate::decimal::{
    lemma_normalize, lemma_product_congruent, lemma_same_number, lemma_value_eq_trans,
    normalize, percent_complement, product, DecimalValue,
};
use crate::natural::{lemma_pow10_add, lemma_pow10_positive, pow10};
use crate::types::{valid_discount, DiscountRate, Price};

verus! {

/// The percentages of a list of discounts.
pub open spec fn discount_values(ds: Seq<DiscountRate>) -> Seq<DecimalValue> {
    ds.map_values(|d: DiscountRate| d@)
}

/// `v` after each discount of `ds` in turn: every discount multiplies what the
/// previous ones left by `1 - d / 100`, with no rounding in between.
pub open spec fn discounted_value(v: DecimalValue, ds: Seq<DecimalValue>) -> DecimalValue
    decreases ds.len(),
{
    if ds.len() == 0 {
        v
    } else {
        product(discounted_value(v, ds.drop_last()), percent_complement(ds.last()))
    }
}

/// The number of fractional digits that the discounts `ds` add at most.
pub open spec fn discount_scale(ds: Seq<DecimalValue>) -> nat
    decreases ds.len(),
{
    if ds.len() == 0 {
        0
    } else {
        discount_scale(ds.drop_last()) + ds.last().scale + 2
    }
}

pub proof fn lemma_discount_scale_prefix(ds: Seq<DecimalValue>, i: int)
    requires
        0 <= i <= ds.len(),
    ensures
        discount_scale(ds.take(i)) <= discount_scale(ds),
    decreases ds.len() - i,
{
    if i < ds.len() {
        lemma_discount_scale_prefix(ds, i + 1);
        assert(ds.take(i + 1).drop_last() =~= ds.take(i));
    } else {
        assert(ds.take(i) =~= ds);
    }
}

/// A price before and after its discounts.
#[derive(Debug, Clone, PartialEq)]
pub struct DiscountedPrice {
    pub original_price: Price,
    pub discounts: Vec<DiscountRate>,
    pub adjusted_price: Price,
}

/// A copy of a list of discounts.
pub fn copy_discounts(ds: &[DiscountRate]) -> (r: Vec<DiscountRate>)
    ensures
        discount_values(r@) == discount_values(ds@),
{
    let mut out: Vec<DiscountRate> = Vec::new();
    let mut i: usize = 0;
    while i < ds.len()
        invariant
            i <= ds.len(),
            out@.len() == i,
            forall|k: int| 0 <= k < i ==> (#[trigger] out@[k])@ == ds@[k]@,
        decreases ds.len() - i,
    {
        out.push(ds[i].clone());
        i = i + 1;
    }
    assert(discount_values(out@) =~= discount_values(ds@));
    out
}

/// Applies the discounts in order to the price.
pub fn calculate_discounted_price(original_price: Price, discounts: &[DiscountRate]) -> (r:
    DiscountedPrice)
    requires
        original_price@.scale + discount_scale(discount_values(discounts@)) <= usize::MAX,
    ensures
        r.original_price@ == original_price@,
        discount_values(r.discounts@) == discount_values(discounts@),
        r.adjusted_price@ == normalize(
            discounted_value(original_price@, discount_values(discounts@)),
        ),
{
    let ghost ds = discount_values(discounts@);
    let ghost v = original_price@;
    let mut current = original_price.value();
    proof {
        lemma_normalize(v);
        lemma_same_number(current@, v);
        assert(ds.take(0) =~= Seq::<DecimalValue>::empty());
    }
    let mut i: usize = 0;
    while i < discounts.len()
        invariant
            i <= discounts.len(),
            ds == discount_values(discounts@),
            v.scale + discount_scale(ds) <= usize::MAX,
            current@ == normalize(discounted_value(v, ds.take(i as int))),
            current@.scale <= v.scale + discount_scale(ds.take(i as int)),
        decreases discounts.len() - i,
    {
        let d = discounts[i].value();
        let ghost x = discounted_value(v, ds.take(i as int));
        let ghost f = percent_complement(d@);
        proof {
            assert(ds.take(i + 1).drop_last() =~= ds.take(i as int));
            assert(ds.take(i + 1).last() == d@);
            lemma_discount_scale_prefix(ds, i + 1);
            assert(discount_scale(ds.take(i + 1)) == discount_scale(ds.take(i as int)) + d@.scale
                + 2);
        }
        let c = d.complement_percent();
        proof {
            lemma_normalize(f);
        }
        let next = current.multiply(&c);
        proof {
            lemma_normalize(x);
            lemma_normalize(product(current@, c@));
            lemma_product_congruent(current@, c@, x, f);
            lemma_value_eq_trans(normalize(product(current@, c@)), product(current@, c@), product(x, f));
            lemma_same_number(next@, product(x, f));
            lemma_normalize(product(x, f));
        }
        current = next;
        i = i + 1;
    }
    proof {
        assert(ds.take(discounts.len() as int) =~= ds);
    }
    let copied = copy_discounts(discounts);
    let adjusted = Price::new(current).unwrap();
    DiscountedPrice { original_price, discounts: copied, adjusted_price: adjusted }
}

/// Without discounts the price is compared as it is.
pub proof fn lemma_no_discounts_keep_price(v: DecimalValue)
    ensures
        discounted_value(v, Seq::empty()) == v,
{
}

/// Discounts apply one after the other, each to what the previous ones left:
/// applying `ds1` and then `ds2` is applying them all in that order.
pub proof fn lemma_discounts_compose(v: DecimalValue, ds1: Seq<DecimalValue>, ds2: Seq<DecimalValue>)
    ensures
        discounted_value(v, ds1 + ds2) == discounted_value(discounted_value(v, ds1), ds2),
    decreases ds2.len(),
{
    if ds2.len() == 0 {
        assert(ds1 + ds2 =~= ds1);
    } else {
        assert((ds1 + ds2).drop_last() =~= ds1 + ds2.drop_last());
        assert((ds1 + ds2).last() == ds2.last());
        lemma_discounts_compose(v, ds1, ds2.drop_last());
    }
}

/// Discounts keep the sign of the price and never raise its size: the
/// discounted magnitude over its scale is at most the original one.
pub proof fn lemma_discounts_never_raise(v: DecimalValue, ds: Seq<DecimalValue>)
    requires
        forall|k: int| 0 <= k < ds.len() ==> valid_discount(#[trigger] ds[k]),
    ensures
        discounted_value(v, ds).negative == v.negative,
        discounted_value(v, ds).magnitude * pow10(v.scale) <= v.magnitude * pow10(
            discounted_value(v, ds).scale,
        ),
    decreases ds.len(),
{
    if ds.len() == 0 {
        assert(v.magnitude * pow10(v.scale) <= v.magnitude * pow10(v.scale));
    } else {
        let d = ds.last();
        let prev = discounted_value(v, ds.drop_last());
        assert forall|k: int| 0 <= k < ds.drop_last().len() implies valid_discount(
            #[trigger] ds.drop_last()[k],
        ) by {
            assert(ds.drop_last()[k] == ds[k]);
        }
        lemma_discounts_never_raise(v, ds.drop_last());
        assert(valid_discount(ds[ds.len() - 1]));
        let f = percent_complement(d);
        let cur = discounted_value(v, ds);
        lemma_pow10_add(prev.scale, f.scale);
        lemma_pow10_positive(d.scale);
        lemma_pow10_positive(v.scale);
        lemma_pow10_positive(prev.scale);
        assert(pow10(d.scale + 2) == 100 * pow10(d.scale)) by {
            lemma_pow10_add(d.scale, 2);
            assert(pow10(2) == 100) by {
                reveal_with_fuel(pow10, 3);
            }
        }
        assert(f.magnitude <= pow10(f.scale));
        let pm = prev.magnitude as int;
        let fm = f.magnitude as int;
        let pf = pow10(f.scale) as int;
        let ps = pow10(prev.scale) as int;
        let pv = pow10(v.scale) as int;
        assert(cur.magnitude == pm * fm);
        assert(pow10(cur.scale) == ps * pf);
        assert((pm * fm) * pv <= (v.magnitude as int) * (ps * pf)) by (nonlinear_arith)
            requires
                pm * pv <= (v.magnitude as int) * ps,
                0 <= fm <= pf,
                pm >= 0,
                pv >= 1,
                ps >= 1,
        ;
    }
}

} // verus!
