//! Exact signed decimal numbers.
//!
//! A `Decimal` is `(-1)^negative * magnitude / 10^scale` in canonical form:
//! no digit of the magnitude is a redundant leading or trailing zero. The sign
//! is kept for zero too, so that `-0` and `0` read back as written.

use vstd::prelude::*;
use crate::natural::{
    digit_at, digits_add, digits_divmod, digits_from_u64, digits_is_zero, digits_less, digits_mul,
    digits_pow10, digits_pow2,
    digits_shift, digits_sub, digits_value, lemma_pow10_add, lemma_pow10_positive,
    lemma_value_nonzero, lemma_value_pad, lemma_value_shift, lemma_value_skip, pow10, pow2n, valid_digits,
    zeros,
};

verus! {

/// The mathematical content of a `Decimal`.
pub struct DecimalValue {
    pub negative: bool,
    pub magnitude: nat,
    pub scale: nat,
}

/// The signed numerator of `v` over `10^scale`.
pub open spec fn signed(v: DecimalValue) -> int {
    if v.negative {
        -(v.magnitude as int)
    } else {
        v.magnitude as int
    }
}

/// The numerator of `v` over `10^s`, for `s` at least `v.scale`.
pub open spec fn value_at(v: DecimalValue, s: nat) -> int {
    signed(v) * pow10((s - v.scale) as nat)
}

pub open spec fn max_scale(a: DecimalValue, b: DecimalValue) -> nat {
    if a.scale >= b.scale {
        a.scale
    } else {
        b.scale
    }
}

/// `a` and `b` denote the same number.
pub open spec fn value_eq(a: DecimalValue, b: DecimalValue) -> bool {
    value_at(a, max_scale(a, b)) == value_at(b, max_scale(a, b))
}

/// `a` denotes a smaller number than `b`.
pub open spec fn value_less(a: DecimalValue, b: DecimalValue) -> bool {
    value_at(a, max_scale(a, b)) < value_at(b, max_scale(a, b))
}

/// The canonical form: no trailing fractional zero, and zero has no scale.
pub open spec fn canonical(v: DecimalValue) -> bool {
    v.scale > 0 ==> v.magnitude % 10 != 0
}

/// The outcome of comparing two numbers.
#[derive(Debug, Clone, Copy, PartialEq, Eq, Structural)]
pub enum Order {
    Less,
    Equal,
    Greater,
}

/// An exact decimal number.
#[derive(Debug, PartialEq, Eq)]
pub struct Decimal {
    negative: bool,
    digits: Vec<u8>,
    scale: usize,
}

impl View for Decimal {
    type V = DecimalValue;

    closed spec fn view(&self) -> DecimalValue {
        DecimalValue {
            negative: self.negative,
            magnitude: digits_value(self.digits@),
            scale: self.scale as nat,
        }
    }
}

pub proof fn lemma_value_at_rescale(v: DecimalValue, s: nat, t: nat)
    requires
        v.scale <= s <= t,
    ensures
        value_at(v, t) == value_at(v, s) * pow10((t - s) as nat),
{
    lemma_pow10_add((s - v.scale) as nat, (t - s) as nat);
    assert((t - v.scale) as nat == (s - v.scale) as nat + (t - s) as nat);
    let x = signed(v);
    let p = pow10((s - v.scale) as nat);
    let q = pow10((t - s) as nat);
    assert(x * (p * q) == (x * p) * q) by (nonlinear_arith);
}

/// Equality and order do not depend on the common scale chosen.
pub proof fn lemma_compare_at(a: DecimalValue, b: DecimalValue, s: nat)
    requires
        a.scale <= s,
        b.scale <= s,
    ensures
        value_eq(a, b) <==> value_at(a, s) == value_at(b, s),
        value_less(a, b) <==> value_at(a, s) < value_at(b, s),
{
    let m = max_scale(a, b);
    lemma_value_at_rescale(a, m, s);
    lemma_value_at_rescale(b, m, s);
    let q = pow10((s - m) as nat);
    lemma_pow10_positive((s - m) as nat);
    let x = value_at(a, m);
    let y = value_at(b, m);
    assert(x < y <==> x * q < y * q) by (nonlinear_arith)
        requires
            q >= 1,
    ;
    assert(x == y <==> x * q == y * q) by (nonlinear_arith)
        requires
            q >= 1,
    ;
}

pub proof fn lemma_value_at_own_scale(v: DecimalValue)
    ensures
        value_at(v, v.scale) == signed(v),
{
    assert(pow10(0) == 1);
    assert((v.scale - v.scale) as nat == 0);
    assert(signed(v) * 1 == signed(v)) by (nonlinear_arith);
}

pub proof fn lemma_value_at_zero(v: DecimalValue, s: nat)
    requires
        v.scale <= s,
        v.magnitude == 0,
    ensures
        value_at(v, s) == 0,
{
    assert(signed(v) == 0);
    assert(0 * pow10((s - v.scale) as nat) == 0);
}

/// `v` without redundant trailing fractional zeros: the canonical form of the
/// same number with the same sign flag.
pub open spec fn normalize(v: DecimalValue) -> DecimalValue
    decreases v.scale,
{
    if v.scale > 0 && v.magnitude % 10 == 0 {
        normalize(
            DecimalValue {
                negative: v.negative,
                magnitude: v.magnitude / 10,
                scale: (v.scale - 1) as nat,
            },
        )
    } else {
        v
    }
}

/// `value_eq` is transitive.
pub proof fn lemma_value_eq_trans(a: DecimalValue, b: DecimalValue, c: DecimalValue)
    requires
        value_eq(a, b),
        value_eq(b, c),
    ensures
        value_eq(a, c),
{
    let m = max_scale(a, b);
    let s = if m >= c.scale {
        m
    } else {
        c.scale
    };
    lemma_compare_at(a, b, s);
    lemma_compare_at(b, c, s);
    lemma_compare_at(a, c, s);
}

/// `normalize(v)` is canonical and denotes `v` with its sign flag.
pub proof fn lemma_normalize(v: DecimalValue)
    ensures
        canonical(normalize(v)),
        value_eq(normalize(v), v),
        normalize(v).negative == v.negative,
        normalize(v).scale <= v.scale,
    decreases v.scale,
{
    if v.scale > 0 && v.magnitude % 10 == 0 {
        let w = DecimalValue {
            negative: v.negative,
            magnitude: v.magnitude / 10,
            scale: (v.scale - 1) as nat,
        };
        lemma_normalize(w);
        assert(value_eq(w, v)) by {
            lemma_value_at_own_scale(v);
            assert(pow10(1) == 10);
            assert((v.scale - w.scale) as nat == 1);
            assert(v.magnitude == w.magnitude * 10);
            assert(value_at(w, v.scale) == signed(w) * 10);
            assert(signed(v) == signed(w) * 10);
            lemma_compare_at(w, v, v.scale);
        }
        lemma_value_eq_trans(normalize(w), w, v);
    } else {
        lemma_compare_at(v, v, v.scale);
    }
}

/// Two canonical values that denote the same number with the same sign flag
/// are identical.
pub proof fn lemma_canonical_unique(a: DecimalValue, b: DecimalValue)
    requires
        canonical(a),
        canonical(b),
        value_eq(a, b),
        a.negative == b.negative,
    ensures
        a == b,
{
    if a.scale <= b.scale {
        lemma_canonical_unique_ordered(a, b);
    } else {
        lemma_canonical_unique_ordered(b, a);
    }
}

proof fn lemma_canonical_unique_ordered(a: DecimalValue, b: DecimalValue)
    requires
        canonical(a),
        canonical(b),
        value_eq(a, b),
        a.negative == b.negative,
        a.scale <= b.scale,
    ensures
        a == b,
{
    lemma_compare_at(a, b, b.scale);
    lemma_value_at_own_scale(b);
    let d = (b.scale - a.scale) as nat;
    let ma = a.magnitude as int;
    let mb = b.magnitude as int;
    assert(signed(a) * pow10(d) == signed(b));
    assert(ma * pow10(d) == mb) by (nonlinear_arith)
        requires
            signed(a) * pow10(d) == signed(b),
            signed(a) == (if a.negative { -ma } else { ma }),
            signed(b) == (if b.negative { -mb } else { mb }),
            a.negative == b.negative,
    ;
    if d > 0 {
        let p = pow10((d - 1) as nat);
        assert(pow10(d) == 10 * p);
        assert(mb == (ma * p) * 10) by (nonlinear_arith)
            requires
                ma * pow10(d) == mb,
                pow10(d) == 10 * p,
        ;
        vstd::arithmetic::div_mod::lemma_mod_multiples_basic(ma * p, 10);
        assert(mb % 10 == 0);
        assert(false);
    } else {
        assert(pow10(0) == 1);
        assert(ma * 1 == ma) by (nonlinear_arith);
    }
}

/// `a` and `b` denote the same number exactly when their cross products over
/// the other's scale agree.
pub proof fn lemma_value_eq_cross(a: DecimalValue, b: DecimalValue)
    ensures
        value_eq(a, b) <==> signed(a) * pow10(b.scale) == signed(b) * pow10(a.scale),
{
    let s = a.scale + b.scale;
    lemma_compare_at(a, b, s);
    assert((s - a.scale) as nat == b.scale);
    assert((s - b.scale) as nat == a.scale);
}

/// `a` denotes a smaller number than `b` exactly when its cross product over
/// the other's scale is smaller.
pub proof fn lemma_value_less_cross(a: DecimalValue, b: DecimalValue)
    ensures
        value_less(a, b) <==> signed(a) * pow10(b.scale) < signed(b) * pow10(a.scale),
{
    let s = a.scale + b.scale;
    lemma_compare_at(a, b, s);
    assert((s - a.scale) as nat == b.scale);
    assert((s - b.scale) as nat == a.scale);
}

/// The exact product of two values, with the sign rule of multiplication.
pub open spec fn product(a: DecimalValue, b: DecimalValue) -> DecimalValue {
    DecimalValue {
        negative: a.negative != b.negative,
        magnitude: a.magnitude * b.magnitude,
        scale: a.scale + b.scale,
    }
}

/// Multiplying numbers that are equal gives equal products.
pub proof fn lemma_product_congruent(
    a: DecimalValue,
    b: DecimalValue,
    c: DecimalValue,
    d: DecimalValue,
)
    requires
        value_eq(a, c),
        value_eq(b, d),
    ensures
        value_eq(product(a, b), product(c, d)),
{
    lemma_value_eq_cross(a, c);
    lemma_value_eq_cross(b, d);
    lemma_value_eq_cross(product(a, b), product(c, d));
    let p = product(a, b);
    let q = product(c, d);
    assert(signed(p) == signed(a) * signed(b)) by (nonlinear_arith)
        requires
            signed(p) == (if p.negative { -(p.magnitude as int) } else { p.magnitude as int }),
            signed(a) == (if a.negative { -(a.magnitude as int) } else { a.magnitude as int }),
            signed(b) == (if b.negative { -(b.magnitude as int) } else { b.magnitude as int }),
            p.magnitude == a.magnitude * b.magnitude,
            p.negative == (a.negative != b.negative),
    ;
    assert(signed(q) == signed(c) * signed(d)) by (nonlinear_arith)
        requires
            signed(q) == (if q.negative { -(q.magnitude as int) } else { q.magnitude as int }),
            signed(c) == (if c.negative { -(c.magnitude as int) } else { c.magnitude as int }),
            signed(d) == (if d.negative { -(d.magnitude as int) } else { d.magnitude as int }),
            q.magnitude == c.magnitude * d.magnitude,
            q.negative == (c.negative != d.negative),
    ;
    lemma_pow10_add(a.scale, b.scale);
    lemma_pow10_add(c.scale, d.scale);
    let (sa, sb, sc, sd) = (signed(a), signed(b), signed(c), signed(d));
    let (pa, pb, pc, pd) = (pow10(a.scale), pow10(b.scale), pow10(c.scale), pow10(d.scale));
    assert((sa * sb) * (pc * pd) == (sc * sd) * (pa * pb)) by (nonlinear_arith)
        requires
            sa * pc == sc * pa,
            sb * pd == sd * pb,
    ;
}

/// A canonical value that denotes `v` with its sign flag is `normalize(v)`.
pub proof fn lemma_same_number(x: DecimalValue, v: DecimalValue)
    requires
        canonical(x),
        value_eq(x, v),
        x.negative == v.negative,
    ensures
        x == normalize(v),
{
    lemma_normalize(v);
    lemma_compare_at(v, normalize(v), max_scale(v, normalize(v)));
    lemma_value_eq_trans(x, v, normalize(v));
    lemma_canonical_unique(x, normalize(v));
}

impl Decimal {
    #[verifier::type_invariant]
    spec fn well_formed(self) -> bool {
        &&& valid_digits(self.digits@)
        &&& self.digits.len() > 0 ==> self.digits@.last() != 0
        &&& self.scale > 0 ==> self.digits.len() > 0 && self.digits@[0] != 0
    }

    /// Builds the canonical decimal for `(-1)^negative * digits / 10^scale`.
    pub fn from_parts(negative: bool, digits: Vec<u8>, scale: usize) -> (r: Decimal)
        requires
            valid_digits(digits@),
        ensures
            r@.negative == negative,
            r@.scale <= scale,
            value_eq(
                r@,
                DecimalValue { negative, magnitude: digits_value(digits@), scale: scale as nat },
            ),
            digits_value(digits@) == 0 ==> r@.magnitude == 0 && r@.scale == 0,
            r@ == normalize(
                DecimalValue { negative, magnitude: digits_value(digits@), scale: scale as nat },
            ),
    {
        let ghost orig = DecimalValue {
            negative,
            magnitude: digits_value(digits@),
            scale: scale as nat,
        };
        // count the zeros below the units that can go
        let mut k: usize = 0;
        while k < scale && k < digits.len() && digits[k] == 0
            invariant
                k <= scale,
                k <= digits.len(),
                forall|i: int| 0 <= i < k ==> #[trigger] digits@[i] == 0,
            decreases scale - k,
        {
            k = k + 1;
        }
        let mut low: Vec<u8> = Vec::new();
        let mut j: usize = k;
        while j < digits.len()
            invariant
                k <= j <= digits.len(),
                low@ == digits@.subrange(k as int, j as int),
            decreases digits.len() - j,
        {
            low.push(digits[j]);
            j = j + 1;
            assert(low@ =~= digits@.subrange(k as int, j as int));
        }
        proof {
            assert(low@ =~= digits@.skip(k as int));
            assert(digits@ =~= zeros(k as nat) + digits@.skip(k as int));
            lemma_value_shift(k as nat, digits@.skip(k as int));
        }
        // drop the zeros at the top
        let mut top: usize = low.len();
        while top > 0 && low[top - 1] == 0
            invariant
                top <= low.len(),
                forall|i: int| top <= i < low.len() ==> #[trigger] low@[i] == 0,
            decreases top,
        {
            top = top - 1;
        }
        let mut kept: Vec<u8> = Vec::new();
        let mut t: usize = 0;
        while t < top
            invariant
                t <= top,
                top <= low.len(),
                kept@ == low@.take(t as int),
            decreases top - t,
        {
            kept.push(low[t]);
            t = t + 1;
            assert(kept@ =~= low@.take(t as int));
        }
        proof {
            assert(low@ =~= kept@ + zeros((low.len() - top) as nat));
            lemma_value_pad(kept@, (low.len() - top) as nat);
            assert forall|i: int| 0 <= i < kept@.len() implies #[trigger] kept@[i] < 10 by {
                assert(kept@[i] == digits@[i + k]);
            }
        }
        let new_scale: usize = scale - k;
        let zero = kept.len() == 0;
        let r = if zero {
            Decimal { negative, digits: kept, scale: 0 }
        } else {
            proof {
                if new_scale > 0 {
                    // k stopped below the scale, so the digit it stopped at is nonzero
                    assert(k < digits.len());
                    assert(digits@[k as int] != 0);
                    assert(kept@[0] == digits@[k as int]);
                }
            }
            Decimal { negative, digits: kept, scale: new_scale }
        };
        proof {
            let m = digits_value(kept@);
            assert(digits_value(digits@) == pow10(k as nat) * m);
            if zero {
                assert(kept@.len() == 0);
                assert(m == 0);
                assert(digits_value(digits@) == 0) by {
                    assert(pow10(k as nat) * 0 == 0);
                }
                lemma_value_at_zero(r@, scale as nat);
                lemma_value_at_zero(orig, scale as nat);
                lemma_compare_at(r@, orig, scale as nat);
            } else {
                // value_at(r, scale) = ±m * 10^k = ±digits
                assert(r@.magnitude == m);
                assert(value_at(r@, scale as nat) == signed(r@) * pow10(k as nat));
                assert(value_at(orig, scale as nat) == signed(orig) * pow10(0));
                assert(pow10(0) == 1);
                if negative {
                    assert(-(m as int) * pow10(k as nat) == -((pow10(k as nat) * m) as int)) by (
                    nonlinear_arith);
                } else {
                    assert((m as int) * pow10(k as nat) == (pow10(k as nat) * m) as int) by (
                    nonlinear_arith);
                }
                lemma_compare_at(r@, orig, scale as nat);
                if digits_value(digits@) == 0 {
                    lemma_pow10_positive(k as nat);
                    assert(m == 0) by (nonlinear_arith)
                        requires
                            pow10(k as nat) * m == 0,
                            pow10(k as nat) >= 1,
                    ;
                    lemma_value_nonzero(kept@, (kept@.len() - 1) as int);
                }
            }
        }
        proof {
            use_type_invariant(&r);
            if r@.scale > 0 {
                assert(r.digits@[0] != 0);
                lemma_value_skip(r.digits@, 0);
                assert(r@.magnitude == r.digits@[0] as nat + 10 * digits_value(r.digits@.skip(1)));
                vstd::arithmetic::div_mod::lemma_fundamental_div_mod_converse(
                    r@.magnitude as int,
                    10,
                    digits_value(r.digits@.skip(1)) as int,
                    r.digits@[0] as int,
                );
            }
            lemma_same_number(r@, orig);
        }
        r
    }

    /// Zero, with the given sign.
    pub fn zero(negative: bool) -> (r: Decimal)
        ensures
            r@.negative == negative,
            r@.magnitude == 0,
            r@.scale == 0,
    {
        let r = Decimal { negative, digits: Vec::new(), scale: 0 };
        assert(digits_value(r.digits@) == 0);
        r
    }

    /// The non-negative integer `v`.
    pub fn from_u64(v: u64) -> (r: Decimal)
        ensures
            r@.negative == false,
            r@.magnitude == v,
            r@.scale == 0,
    {
        let d = digits_from_u64(v);
        let ghost dv = digits_value(d@);
        let r = Decimal::from_parts(false, d, 0);
        proof {
            let o = DecimalValue { negative: false, magnitude: dv, scale: 0 };
            assert(value_eq(r@, o));
            assert(signed(r@) == r@.magnitude);
            assert(signed(o) == dv);
            assert(r@.scale == 0);
            lemma_value_at_own_scale(r@);
            lemma_value_at_own_scale(o);
            assert(max_scale(r@, o) == 0);
        }
        r
    }

    /// The number of fractional digits.
    pub fn scale(&self) -> (r: usize)
        ensures
            r == self@.scale,
    {
        self.scale
    }

    /// Whether the number is zero.
    pub fn is_zero(&self) -> (r: bool)
        ensures
            r == (self@.magnitude == 0),
    {
        digits_is_zero(&self.digits)
    }

    /// A copy of this number.
    pub fn duplicate(&self) -> (r: Decimal)
        ensures
            r@ == self@,
            canonical(r@),
    {
        proof {
            use_type_invariant(self);
            if self@.scale > 0 {
                lemma_value_skip(self.digits@, 0);
                vstd::arithmetic::div_mod::lemma_fundamental_div_mod_converse(
                    self@.magnitude as int,
                    10,
                    digits_value(self.digits@.skip(1)) as int,
                    self.digits@[0] as int,
                );
            }
        }
        let mut d: Vec<u8> = Vec::new();
        let mut i: usize = 0;
        while i < self.digits.len()
            invariant
                i <= self.digits.len(),
                d@ == self.digits@.take(i as int),
            decreases self.digits.len() - i,
        {
            d.push(self.digits[i]);
            i = i + 1;
            assert(d@ =~= self.digits@.take(i as int));
        }
        assert(d@ =~= self.digits@);
        Decimal { negative: self.negative, digits: d, scale: self.scale }
    }

    /// The magnitude at scale `s` (that is, `|self| * 10^s`), as digits.
    fn magnitude_at(&self, s: usize) -> (r: Vec<u8>)
        requires
            self@.scale <= s,
        ensures
            valid_digits(r@),
            digits_value(r@) == self@.magnitude * pow10((s - self@.scale) as nat),
    {
        proof {
            use_type_invariant(self);
        }
        let r = digits_shift(&self.digits, s - self.scale);
        assert(pow10((s - self.scale) as nat) * digits_value(self.digits@) == digits_value(
            self.digits@,
        ) * pow10((s - self.scale) as nat)) by (nonlinear_arith);
        r
    }

    /// Compares the numbers that `self` and `other` denote.
    pub fn compare(&self, other: &Decimal) -> (r: Order)
        ensures
            (r == Order::Less) == value_less(self@, other@),
            (r == Order::Equal) == value_eq(self@, other@),
            (r == Order::Greater) == value_less(other@, self@),
    {
        let m: usize = if self.scale >= other.scale {
            self.scale
        } else {
            other.scale
        };
        let a = self.magnitude_at(m);
        let b = other.magnitude_at(m);
        let za = digits_is_zero(&a);
        let zb = digits_is_zero(&b);
        let neg_a = self.negative && !za;
        let neg_b = other.negative && !zb;
        let ghost x = value_at(self@, m as nat);
        let ghost y = value_at(other@, m as nat);
        proof {
            let pa = pow10((m - self@.scale) as nat);
            let pb = pow10((m - other@.scale) as nat);
            lemma_pow10_positive((m - self@.scale) as nat);
            lemma_pow10_positive((m - other@.scale) as nat);
            let ma = self@.magnitude as int;
            let mb = other@.magnitude as int;
            if self@.negative {
                assert(x == -(ma * pa)) by (nonlinear_arith)
                    requires
                        x == (-ma) * pa,
                ;
            } else {
                assert(x == ma * pa);
            }
            if other@.negative {
                assert(y == -(mb * pb)) by (nonlinear_arith)
                    requires
                        y == (-mb) * pb,
                ;
            } else {
                assert(y == mb * pb);
            }
            lemma_compare_at(self@, other@, m as nat);
            lemma_compare_at(other@, self@, m as nat);
        }
        if neg_a && !neg_b {
            Order::Less
        } else if !neg_a && neg_b {
            Order::Greater
        } else {
            let less = digits_less(&a, &b);
            let greater = digits_less(&b, &a);
            if less {
                if neg_a {
                    Order::Greater
                } else {
                    Order::Less
                }
            } else if greater {
                if neg_a {
                    Order::Less
                } else {
                    Order::Greater
                }
            } else {
                Order::Equal
            }
        }
    }

    /// The exact product.
    pub fn multiply(&self, other: &Decimal) -> (r: Decimal)
        requires
            self@.scale + other@.scale <= usize::MAX,
        ensures
            r@.negative == (self@.negative != other@.negative),
            value_eq(
                r@,
                DecimalValue {
                    negative: self@.negative != other@.negative,
                    magnitude: self@.magnitude * other@.magnitude,
                    scale: self@.scale + other@.scale,
                },
            ),
            r@ == normalize(
                DecimalValue {
                    negative: self@.negative != other@.negative,
                    magnitude: self@.magnitude * other@.magnitude,
                    scale: self@.scale + other@.scale,
                },
            ),
    {
        proof {
            use_type_invariant(self);
            use_type_invariant(other);
        }
        let d = digits_mul(&self.digits, &other.digits);
        Decimal::from_parts(self.negative != other.negative, d, self.scale + other.scale)
    }

    /// The decimal text: an optional `-`, the integer digits, and the
    /// fractional digits after a `.` when there are any.
    pub fn to_text(&self) -> (r: String)
        ensures
            r@ == decimal_text(self@),
            r@ == decimal_text(normalize(self@)),
    {
        proof {
            use_type_invariant(self);
            if self@.scale > 0 {
                lemma_value_skip(self.digits@, 0);
                vstd::arithmetic::div_mod::lemma_fundamental_div_mod_converse(
                    self@.magnitude as int,
                    10,
                    digits_value(self.digits@.skip(1)) as int,
                    self.digits@[0] as int,
                );
            }
            assert(normalize(self@) == self@);
        }
        let mut out: Vec<char> = Vec::new();
        if self.negative {
            out.push('-');
        }
        let n = self.digits.len();
        let s = self.scale;
        let ghost head = out@;
        if n <= s {
            out.push('0');
        } else {
            let mut i: usize = n;
            while i > s
                invariant
                    s <= i <= n,
                    n == self.digits.len(),
                    valid_digits(self.digits@),
                    out@ == head + Seq::new(
                        (n - i) as nat,
                        |t: int| digit_char(self.digits@[n - 1 - t] as nat),
                    ),
                decreases i,
            {
                out.push(digit_char_exec(self.digits[i - 1]));
                i = i - 1;
                assert(out@ =~= head + Seq::new(
                    (n - i) as nat,
                    |t: int| digit_char(self.digits@[n - 1 - t] as nat),
                ));
            }
        }
        let ghost mid = out@;
        if s > 0 {
            out.push('.');
            let mut i: usize = s;
            while i > 0
                invariant
                    i <= s,
                    n == self.digits.len(),
                    valid_digits(self.digits@),
                    out@ == mid + seq!['.'] + Seq::new(
                        (s - i) as nat,
                        |t: int| digit_char(digit_at(self.digits@, s - 1 - t)),
                    ),
                decreases i,
            {
                let d: u8 = if i - 1 < n {
                    self.digits[i - 1]
                } else {
                    0
                };
                out.push(digit_char_exec(d));
                i = i - 1;
                assert(out@ =~= mid + seq!['.'] + Seq::new(
                    (s - i) as nat,
                    |t: int| digit_char(digit_at(self.digits@, s - 1 - t)),
                ));
            }
        }
        proof {
            assert(out@ =~= decimal_text_of(self.negative, self.digits@, s as nat));
            lemma_decimal_text(self.negative, self.digits@, s as nat);
        }
        crate::text::string_from_chars(&out)
    }
}

impl Clone for Decimal {
    fn clone(&self) -> (r: Self)
        ensures
            r@ == self@,
    {
        self.duplicate()
    }
}

/// The character of a decimal digit.
pub open spec fn digit_char(d: nat) -> char {
    if d == 0 {
        '0'
    } else if d == 1 {
        '1'
    } else if d == 2 {
        '2'
    } else if d == 3 {
        '3'
    } else if d == 4 {
        '4'
    } else if d == 5 {
        '5'
    } else if d == 6 {
        '6'
    } else if d == 7 {
        '7'
    } else if d == 8 {
        '8'
    } else {
        '9'
    }
}

pub fn digit_char_exec(d: u8) -> (c: char)
    requires
        d < 10,
    ensures
        c == digit_char(d as nat),
{
    if d == 0 {
        '0'
    } else if d == 1 {
        '1'
    } else if d == 2 {
        '2'
    } else if d == 3 {
        '3'
    } else if d == 4 {
        '4'
    } else if d == 5 {
        '5'
    } else if d == 6 {
        '6'
    } else if d == 7 {
        '7'
    } else if d == 8 {
        '8'
    } else {
        '9'
    }
}

/// Text of the digits of `m` with the decimal point `s` places from the right.
spec fn decimal_text_of(negative: bool, d: Seq<u8>, s: nat) -> Seq<char> {
    let n = d.len();
    (if negative {
        seq!['-']
    } else {
        Seq::empty()
    }) + (if n <= s {
        seq!['0']
    } else {
        Seq::new((n - s) as nat, |t: int| digit_char(d[n - 1 - t] as nat))
    }) + (if s > 0 {
        seq!['.'] + Seq::new(s, |t: int| digit_char(digit_at(d, s - 1 - t)))
    } else {
        Seq::empty()
    })
}

/// The decimal digit of `m` at position `i` (units are position 0).
pub open spec fn nat_digit(m: nat, i: nat) -> nat {
    (m / pow10(i)) % 10
}

/// The number of digits of `m` (none for zero).
pub open spec fn nat_length(m: nat) -> nat
    decreases m,
{
    if m == 0 {
        0
    } else {
        1 + nat_length(m / 10)
    }
}

/// The decimal text of a number, in the layout in which Rust prints a float:
/// an optional `-`, the integer part (`0` when it is empty), and when the
/// scale is positive a `.` followed by exactly `scale` fractional digits.
pub open spec fn decimal_text(v: DecimalValue) -> Seq<char> {
    let n = nat_length(v.magnitude);
    let s = v.scale;
    (if v.negative {
        seq!['-']
    } else {
        Seq::empty()
    }) + (if n <= s {
        seq!['0']
    } else {
        Seq::new((n - s) as nat, |t: int| digit_char(nat_digit(v.magnitude, (n - 1 - t) as nat)))
    }) + (if s > 0 {
        seq!['.'] + Seq::new(s, |t: int| digit_char(nat_digit(v.magnitude, (s - 1 - t) as nat)))
    } else {
        Seq::empty()
    })
}

/// `nat_digit` and `nat_length` read the digits of a canonical digit sequence.
proof fn lemma_digits_read(d: Seq<u8>)
    requires
        valid_digits(d),
        d.len() > 0 ==> d.last() != 0,
    ensures
        nat_length(digits_value(d)) == d.len(),
        forall|i: nat| #[trigger] nat_digit(digits_value(d), i) == digit_at(d, i as int),
    decreases d.len(),
{
    if d.len() == 0 {
        assert forall|i: nat| #[trigger] nat_digit(digits_value(d), i) == digit_at(d, i as int) by {
            lemma_pow10_positive(i);
            assert(0nat / pow10(i) == 0) by (nonlinear_arith)
                requires
                    pow10(i) >= 1,
            ;
        }
    } else {
        let t = d.drop_first();
        assert(valid_digits(t));
        if t.len() > 0 {
            assert(t.last() == d.last());
        }
        lemma_digits_read(t);
        let v = digits_value(d);
        let w = digits_value(t);
        let d0 = d[0] as nat;
        assert(d0 < 10);
        assert(v == d0 + 10 * w);
        assert(v / 10 == w && v % 10 == d0) by (nonlinear_arith)
            requires
                v == d0 + 10 * w,
                d0 < 10,
        ;
        if v == 0 {
            lemma_value_nonzero(d, d.len() - 1);
        }
        assert(nat_length(v) == 1 + nat_length(w));
        assert forall|i: nat| #[trigger] nat_digit(v, i) == digit_at(d, i as int) by {
            if i == 0 {
                assert(pow10(0) == 1);
                assert(v / 1 == v);
            } else {
                let p = pow10((i - 1) as nat);
                lemma_pow10_positive((i - 1) as nat);
                assert(pow10(i) == 10 * p);
                assert(v / (10 * p) == (v / 10) / p) by (nonlinear_arith)
                    requires
                        p >= 1,
                {
                    vstd::arithmetic::div_mod::lemma_div_denominator(v as int, 10, p as int);
                }
                assert(nat_digit(w, (i - 1) as nat) == digit_at(t, i - 1));
                assert(digit_at(d, i as int) == digit_at(t, i - 1));
            }
        }
    }
}

proof fn lemma_decimal_text(negative: bool, d: Seq<u8>, s: nat)
    requires
        valid_digits(d),
        d.len() > 0 ==> d.last() != 0,
    ensures
        decimal_text_of(negative, d, s) == decimal_text(
            DecimalValue { negative, magnitude: digits_value(d), scale: s },
        ),
{
    lemma_digits_read(d);
    let n = d.len();
    let v = DecimalValue { negative, magnitude: digits_value(d), scale: s };
    if n > s {
        assert(Seq::new((n - s) as nat, |t: int| digit_char(d[n - 1 - t] as nat)) =~= Seq::new(
            (n - s) as nat,
            |t: int| digit_char(nat_digit(v.magnitude, (n - 1 - t) as nat)),
        ));
    }
    assert(Seq::new(s, |t: int| digit_char(digit_at(d, s - 1 - t))) =~= Seq::new(
        s,
        |t: int| digit_char(nat_digit(v.magnitude, (s - 1 - t) as nat)),
    ));
}

/// `m` with the sign `negative` as an integer.
pub open spec fn signed_nat(negative: bool, m: nat) -> int {
    if negative {
        -(m as int)
    } else {
        m as int
    }
}

/// `(-1)^a_negative * a - (-1)^b_negative * b`, as a sign and a magnitude.
fn signed_difference(a_negative: bool, a: &Vec<u8>, b_negative: bool, b: &Vec<u8>) -> (r: (
    bool,
    Vec<u8>,
))
    requires
        valid_digits(a@),
        valid_digits(b@),
    ensures
        valid_digits(r.1@),
        signed_nat(r.0, digits_value(r.1@)) == signed_nat(a_negative, digits_value(a@))
            - signed_nat(b_negative, digits_value(b@)),
{
    if a_negative != b_negative {
        // opposite signs: the magnitudes add up
        (a_negative, digits_add(a, b))
    } else {
        let (diff, borrow) = digits_sub(a, b);
        if !borrow {
            (a_negative, diff)
        } else {
            let (diff2, _) = digits_sub(b, a);
            (!a_negative, diff2)
        }
    }
}

/// The digits of `f64::EPSILON`, which is `2^-52 = epsilon_digits() / 10^52`.
pub open spec fn epsilon_digits() -> nat {
    pow10(52) / pow2n(52)
}

/// The size of an integer.
pub open spec fn abs_int(x: int) -> nat {
    (if x < 0 {
        -x
    } else {
        x
    }) as nat
}

/// Adding `f64::EPSILON` to an `f64` changes it only when its magnitude is
/// below 2: from 2 on, `f64::EPSILON` is at most half a unit in the last
/// place, and an exact half (at two decimals, an odd number of eighths)
/// keeps its value on the tie, since its last mantissa bit is zero.
pub open spec fn nudge_applies(v: DecimalValue) -> bool {
    v.magnitude < 2 * pow10(v.scale)
}

/// The numerator over `10^(v.scale + 52)` of `v` after `f64::EPSILON` is
/// added to it as `f64` addition does: added below 2 in magnitude, absorbed
/// from 2 on.
pub open spec fn nudged_numerator(v: DecimalValue) -> int {
    signed(v) * pow10(52) + (if nudge_applies(v) {
        epsilon_digits() * pow10(v.scale)
    } else {
        0
    })
}

/// `|v + f64::EPSILON| * 10^decimals` (the addition as `nudged_numerator`
/// says) rounded to the nearest integer, halves away from zero.
pub open spec fn rounded_magnitude(v: DecimalValue, decimals: nat) -> nat {
    let den = pow10(v.scale) * pow10(52);
    (2 * abs_int(nudged_numerator(v)) * pow10(decimals) + den) / (2 * den)
}

/// `v` rounded to `decimals` fractional digits as
/// `((v + f64::EPSILON) * 10^decimals).round() / 10^decimals` does it, in exact
/// arithmetic: `f64::EPSILON` (`2^-52`) is added where `f64` addition keeps it
/// (below 2 in magnitude), then halves go away from zero; the sign flag tells
/// whether the sum is below zero. So an exact negative half near zero, such
/// as `-0.125`, goes toward zero (`-0.12`), and `-87.655` goes to `-87.66`.
pub open spec fn rounded_value(v: DecimalValue, decimals: nat) -> DecimalValue {
    DecimalValue {
        negative: nudged_numerator(v) < 0,
        magnitude: rounded_magnitude(v, decimals),
        scale: decimals,
    }
}

/// A number, or one of the two special results of a division: infinity
/// and not-a-number.
#[derive(Debug, PartialEq, Eq)]
pub enum Figure {
    Finite(Decimal),
    Infinite { negative: bool },
    NotANumber,
}

/// The mathematical content of a `Figure`.
pub enum FigureValue {
    Finite(DecimalValue),
    Infinite { negative: bool },
    NotANumber,
}

impl View for Figure {
    type V = FigureValue;

    open spec fn view(&self) -> FigureValue {
        match self {
            Figure::Finite(d) => FigureValue::Finite(d@),
            Figure::Infinite { negative } => FigureValue::Infinite { negative: *negative },
            Figure::NotANumber => FigureValue::NotANumber,
        }
    }
}

impl Clone for Figure {
    fn clone(&self) -> (r: Self)
        ensures
            r@ == self@,
    {
        match self {
            Figure::Finite(d) => Figure::Finite(d.duplicate()),
            Figure::Infinite { negative } => Figure::Infinite { negative: *negative },
            Figure::NotANumber => Figure::NotANumber,
        }
    }
}

/// The numerator over `s * 10^52` of `x` after `f64::EPSILON` is added to it
/// as `f64` addition does (below 2 in magnitude, that is when
/// `50 * |a - s| < |s|`), for the variation `x = used / sys * 100 - 100` and a
/// nonzero `sys`, with `a / s = used / sys` over a common scale.
pub open spec fn variation_numerator(used: DecimalValue, sys: DecimalValue) -> int {
    let a = signed(used) * pow10(sys.scale);
    let s = signed(sys) * pow10(used.scale);
    100 * (a - s) * pow10(52) + (if 50 * abs_int(a - s) < abs_int(s) {
        epsilon_digits() * s
    } else {
        0
    })
}

/// The common-scale numerator of `sys`.
pub open spec fn variation_base(used: DecimalValue, sys: DecimalValue) -> int {
    signed(sys) * pow10(used.scale)
}

/// `|100 * (x + f64::EPSILON)|` rounded to the nearest integer, halves away
/// from zero, for the variation `x = used / sys * 100 - 100` and a nonzero
/// `sys`.
pub open spec fn variation_magnitude(used: DecimalValue, sys: DecimalValue) -> nat {
    let t = abs_int(variation_numerator(used, sys));
    let m = abs_int(variation_base(used, sys)) * pow10(52);
    (200 * t + m) / (2 * m)
}

/// Whether `used / sys * 100 - 100 + f64::EPSILON` is negative, for a nonzero
/// `sys`.
pub open spec fn variation_negative(used: DecimalValue, sys: DecimalValue) -> bool {
    let t = variation_numerator(used, sys);
    t != 0 && ((t < 0) != (variation_base(used, sys) < 0))
}

/// `(used / sys) * 100 - 100`, computed exactly and rounded to two decimals as
/// `rounded_value` does (`f64::EPSILON` added, then halves away from zero):
/// infinite when `sys` is zero and `used` is not, not a number when both are
/// zero.
pub open spec fn variation_figure(used: DecimalValue, sys: DecimalValue) -> FigureValue {
    if sys.magnitude == 0 {
        if used.magnitude == 0 {
            FigureValue::NotANumber
        } else {
            FigureValue::Infinite { negative: used.negative != sys.negative }
        }
    } else {
        FigureValue::Finite(
            DecimalValue {
                negative: variation_negative(used, sys),
                magnitude: variation_magnitude(used, sys),
                scale: 2,
            },
        )
    }
}

/// The figure with its finite value in canonical form.
pub open spec fn normalize_figure(f: FigureValue) -> FigureValue {
    match f {
        FigureValue::Finite(v) => FigureValue::Finite(normalize(v)),
        _ => f,
    }
}

impl Decimal {
    /// `self` rounded to `decimals` fractional digits as `rounded_value`
    /// says: `f64::EPSILON` added, then halves away from zero.
    pub fn round_to(&self, decimals: u32) -> (r: Decimal)
        ensures
            r@.scale <= decimals,
            r@ == normalize(rounded_value(self@, decimals as nat)),
    {
        proof {
            use_type_invariant(self);
        }
        let one = digits_from_u64(1);
        let two = digits_from_u64(2);
        let eps = epsilon_digits_exec();
        // N = signed(self) * 10^52 + epsilon * 10^scale
        let shifted = digits_shift(&self.digits, 52);
        let p = digits_shift(&one, self.scale);
        let two_p = digits_mul(&p, &two);
        let small = digits_less(&self.digits, &two_p);
        let e_mag = if small {
            digits_mul(&eps, &p)
        } else {
            Vec::new()
        };
        let vneg = self.negative && !digits_is_zero(&self.digits);
        let (nneg, nmag) = signed_difference(vneg, &shifted, true, &e_mag);
        // (2 * |N| * 10^decimals + 10^(scale + 52)) over 2 * 10^(scale + 52)
        let m = digits_shift(&nmag, decimals as usize);
        let m2 = digits_mul(&m, &two);
        let big = digits_shift(&p, 52);
        let num = digits_add(&m2, &big);
        let den = digits_mul(&big, &two);
        let ghost v = self@;
        let ghost pd = pow10(decimals as nat);
        let ghost ps = pow10(self.scale as nat);
        let ghost p52 = pow10(52);
        proof {
            lemma_pow10_positive(self.scale as nat);
            lemma_pow10_positive(52);
            assert(digits_value(p@) == ps) by (nonlinear_arith)
                requires
                    digits_value(p@) == ps * 1,
            ;
            assert(digits_value(big@) == ps * p52) by (nonlinear_arith)
                requires
                    digits_value(big@) == p52 * digits_value(p@),
                    digits_value(p@) == ps,
            ;
            assert(ps * p52 >= 1) by (nonlinear_arith)
                requires
                    ps >= 1,
                    p52 >= 1,
            ;
            assert(digits_value(den@) > 0);
            let mv = v.magnitude as int;
            assert(signed_nat(vneg, digits_value(shifted@)) == signed(v) * p52) by (
            nonlinear_arith)
                requires
                    digits_value(shifted@) == p52 * mv,
                    vneg ==> v.negative,
                    !vneg ==> (!v.negative || mv == 0),
                    signed(v) == (if v.negative {
                        -mv
                    } else {
                        mv
                    }),
                    signed_nat(vneg, digits_value(shifted@)) == (if vneg {
                        -(digits_value(shifted@) as int)
                    } else {
                        digits_value(shifted@) as int
                    }),
            ;
            assert(digits_value(two_p@) == 2 * ps) by (nonlinear_arith)
                requires
                    digits_value(two_p@) == digits_value(p@) * 2,
                    digits_value(p@) == ps,
            ;
            assert(small == nudge_applies(v));
            if small {
                assert(digits_value(e_mag@) == epsilon_digits() * ps);
            } else {
                assert(digits_value(e_mag@) == 0);
            }
            assert(signed_nat(nneg, digits_value(nmag@)) == nudged_numerator(v));
            assert(digits_value(nmag@) == abs_int(nudged_numerator(v)));
        }
        let (q, rem) = digits_divmod(&num, &den);
        let neg = nneg && !digits_is_zero(&nmag);
        let r = Decimal::from_parts(neg, q, decimals as usize);
        proof {
            let a = abs_int(nudged_numerator(v)) as int;
            let n = digits_value(num@) as int;
            let dv = digits_value(den@) as int;
            assert(digits_value(m2@) == 2 * a * pd) by (nonlinear_arith)
                requires
                    digits_value(m2@) == digits_value(m@) * 2,
                    digits_value(m@) == pd * a,
            ;
            assert(n == 2 * a * pd + ps * p52);
            assert(dv == 2 * (ps * p52));
            vstd::arithmetic::div_mod::lemma_fundamental_div_mod_converse(
                n,
                dv,
                digits_value(q@) as int,
                digits_value(rem@) as int,
            );
            assert(digits_value(q@) == rounded_magnitude(v, decimals as nat));
            assert(neg == (nudged_numerator(v) < 0));
        }
        r
    }
}

/// The digits of `epsilon_digits()`.
fn epsilon_digits_exec() -> (r: Vec<u8>)
    ensures
        valid_digits(r@),
        digits_value(r@) == epsilon_digits(),
{
    let ten = digits_pow10(52);
    let two = digits_pow2(52);
    proof {
        crate::natural::lemma_pow2n_monotone(0, 52);
    }
    let (q, rem) = digits_divmod(&ten, &two);
    proof {
        vstd::arithmetic::div_mod::lemma_fundamental_div_mod_converse(
            pow10(52) as int,
            pow2n(52) as int,
            digits_value(q@) as int,
            digits_value(rem@) as int,
        );
    }
    q
}

/// `1 - d / 100`, for a percentage `d` below 100.
pub open spec fn percent_complement(d: DecimalValue) -> DecimalValue {
    DecimalValue {
        negative: false,
        magnitude: (100 * pow10(d.scale) - d.magnitude) as nat,
        scale: d.scale + 2,
    }
}

impl Decimal {
    /// `1 - self / 100`, for a percentage strictly between 0 and 100.
    pub fn complement_percent(&self) -> (r: Decimal)
        requires
            0 < signed(self@),
            signed(self@) < 100 * pow10(self@.scale),
            self@.scale + 2 <= usize::MAX,
        ensures
            r@ == normalize(percent_complement(self@)),
    {
        proof {
            use_type_invariant(self);
        }
        let hundred = digits_from_u64(100);
        let h = digits_shift(&hundred, self.scale);
        let (diff, _) = digits_sub(&h, &self.digits);
        proof {
            assert(digits_value(h@) == 100 * pow10(self@.scale)) by (nonlinear_arith)
                requires
                    digits_value(h@) == pow10(self@.scale) * 100,
            ;
        }
        Decimal::from_parts(false, diff, self.scale + 2)
    }
}

impl Decimal {
    /// The percentage variation of `self` (the price used) against `sys`
    /// (the system price): `(self / sys) * 100 - 100`, rounded to two decimals
    /// as `variation_figure` says (`f64::EPSILON` added, then halves away from
    /// zero).
    pub fn variation_against(&self, sys: &Decimal) -> (r: Figure)
        ensures
            r@ == normalize_figure(variation_figure(self@, sys@)),
    {
        proof {
            use_type_invariant(self);
            use_type_invariant(sys);
        }
        if sys.is_zero() {
            if self.is_zero() {
                return Figure::NotANumber;
            } else {
                return Figure::Infinite { negative: self.negative != sys.negative };
            }
        }
        let a_mag = digits_shift(&self.digits, sys.scale);
        let s_mag = digits_shift(&sys.digits, self.scale);
        let (dneg, dmag) = signed_difference(self.negative, &a_mag, sys.negative, &s_mag);
        let c100 = digits_from_u64(100);
        let c200 = digits_from_u64(200);
        let two = digits_from_u64(2);
        let eps = epsilon_digits_exec();
        // T = 100 * (a - s) * 10^52 + epsilon * s
        let hundred_d = digits_mul(&dmag, &c100);
        let t1 = digits_shift(&hundred_d, 52);
        let c50 = digits_from_u64(50);
        let fifty_d = digits_mul(&dmag, &c50);
        let small = digits_less(&fifty_d, &s_mag);
        let es = if small {
            digits_mul(&eps, &s_mag)
        } else {
            Vec::new()
        };
        let (tneg, tmag) = signed_difference(dneg, &t1, !sys.negative, &es);
        // (200 * |T| + |s| * 10^52) over 2 * |s| * 10^52
        let x = digits_mul(&tmag, &c200);
        let big = digits_shift(&s_mag, 52);
        let num = digits_add(&x, &big);
        let den = digits_mul(&big, &two);
        let ghost av = digits_value(a_mag@) as int;
        let ghost sv = digits_value(s_mag@) as int;
        let ghost p52 = pow10(52);
        proof {
            lemma_pow10_positive(self.scale as nat);
            lemma_pow10_positive(sys.scale as nat);
            lemma_pow10_positive(52);
            assert(sv >= 1) by (nonlinear_arith)
                requires
                    sv == pow10(self.scale as nat) * digits_value(sys.digits@),
                    pow10(self.scale as nat) >= 1,
                    digits_value(sys.digits@) >= 1,
            ;
            assert(digits_value(big@) == p52 * sv);
            assert(p52 * sv >= 1) by (nonlinear_arith)
                requires
                    sv >= 1,
                    p52 >= 1,
            ;
            assert(digits_value(den@) > 0);
        }
        let (q, rem) = digits_divmod(&num, &den);
        let nz = !digits_is_zero(&tmag);
        let flag = nz && (tneg != sys.negative);
        let r = Decimal::from_parts(flag, q, 2);
        proof {
            let u = self@;
            let w = sys@;
            let a = signed(u) * pow10(w.scale);
            let s = signed(w) * pow10(u.scale);
            assert(a == signed_nat(u.negative, av as nat)) by (nonlinear_arith)
                requires
                    av == pow10(w.scale) * u.magnitude,
                    a == signed(u) * pow10(w.scale),
                    signed(u) == (if u.negative {
                        -(u.magnitude as int)
                    } else {
                        u.magnitude as int
                    }),
                    signed_nat(u.negative, av as nat) == (if u.negative {
                        -av
                    } else {
                        av
                    }),
            ;
            assert(s == signed_nat(w.negative, sv as nat)) by (nonlinear_arith)
                requires
                    sv == pow10(u.scale) * w.magnitude,
                    s == signed(w) * pow10(u.scale),
                    signed(w) == (if w.negative {
                        -(w.magnitude as int)
                    } else {
                        w.magnitude as int
                    }),
                    signed_nat(w.negative, sv as nat) == (if w.negative {
                        -sv
                    } else {
                        sv
                    }),
            ;
            let dm = digits_value(dmag@) as int;
            assert(signed_nat(dneg, dm as nat) == a - s);
            let e = epsilon_digits() as int;
            assert(digits_value(t1@) == p52 * (dm * 100));
            assert(signed_nat(dneg, digits_value(t1@)) == 100 * (a - s) * p52) by (nonlinear_arith)
                requires
                    digits_value(t1@) == p52 * (dm * 100),
                    signed_nat(dneg, dm as nat) == a - s,
                    signed_nat(dneg, dm as nat) == (if dneg {
                        -dm
                    } else {
                        dm
                    }),
                    signed_nat(dneg, digits_value(t1@)) == (if dneg {
                        -(digits_value(t1@) as int)
                    } else {
                        digits_value(t1@) as int
                    }),
            ;
            let ee = if 50 * abs_int(a - s) < abs_int(s) {
                e
            } else {
                0
            };
            assert(dm == abs_int(a - s));
            assert(sv == abs_int(s));
            assert(small == (50 * abs_int(a - s) < abs_int(s)));
            assert(digits_value(es@) == ee * sv);
            assert(signed_nat(!w.negative, digits_value(es@)) == -(ee * s)) by (nonlinear_arith)
                requires
                    digits_value(es@) == ee * sv,
                    s == signed_nat(w.negative, sv as nat),
                    s == (if w.negative {
                        -sv
                    } else {
                        sv
                    }),
                    signed_nat(!w.negative, digits_value(es@)) == (if !w.negative {
                        -(digits_value(es@) as int)
                    } else {
                        digits_value(es@) as int
                    }),
            ;
            let t = variation_numerator(u, w);
            assert(signed_nat(tneg, digits_value(tmag@)) == t);
            assert(digits_value(tmag@) == abs_int(t));
            assert(variation_base(u, w) == s);
            assert(abs_int(s) == sv);
            assert(digits_value(x@) == 200 * abs_int(t)) by (nonlinear_arith)
                requires
                    digits_value(x@) == digits_value(tmag@) * 200,
                    digits_value(tmag@) == abs_int(t),
            ;
            assert(digits_value(num@) == 200 * abs_int(t) + sv * p52) by (nonlinear_arith)
                requires
                    digits_value(num@) == digits_value(x@) + digits_value(big@),
                    digits_value(x@) == 200 * abs_int(t),
                    digits_value(big@) == p52 * sv,
            ;
            assert(digits_value(den@) == 2 * (sv * p52)) by (nonlinear_arith)
                requires
                    digits_value(den@) == digits_value(big@) * 2,
                    digits_value(big@) == p52 * sv,
            ;
            vstd::arithmetic::div_mod::lemma_fundamental_div_mod_converse(
                digits_value(num@) as int,
                digits_value(den@) as int,
                digits_value(q@) as int,
                digits_value(rem@) as int,
            );
            assert(digits_value(q@) == variation_magnitude(u, w));
            assert(flag == variation_negative(u, w));
        }
        Figure::Finite(r)
    }
}

/// `f64::EPSILON` lies strictly between 0 and `1 / 200`.
pub proof fn lemma_epsilon_small()
    ensures
        epsilon_digits() >= 1,
        200 * epsilon_digits() < pow10(52),
{
    crate::natural::lemma_pow2n_le_pow10(52);
    crate::natural::lemma_pow2n_monotone(8, 52);
    crate::natural::lemma_pow2n_monotone(0, 52);
    assert(pow2n(8) == 256) by {
        reveal_with_fuel(pow2n, 9);
    }
    let t = pow10(52) as int;
    let b = pow2n(52) as int;
    let e = epsilon_digits() as int;
    vstd::arithmetic::div_mod::lemma_fundamental_div_mod(t, b);
    assert(e == t / b);
    vstd::arithmetic::div_mod::lemma_mod_pos_bound(t, b);
    assert(e >= 1) by (nonlinear_arith)
        requires
            t == b * e + t % b,
            0 <= t % b < b,
            t >= b,
            b >= 1,
    ;
    assert(200 * e < t) by (nonlinear_arith)
        requires
            t == b * e + t % b,
            0 <= t % b,
            b >= 256,
            e >= 1,
    ;
}

/// Equal prices vary by zero percent.
pub proof fn lemma_equal_prices_no_variation(used: DecimalValue, sys: DecimalValue)
    requires
        sys.magnitude != 0,
        value_eq(used, sys),
    ensures
        variation_magnitude(used, sys) == 0,
        !variation_negative(used, sys),
        variation_figure(used, sys) == FigureValue::Finite(
            DecimalValue { negative: false, magnitude: 0, scale: 2 },
        ),
{
    lemma_value_eq_cross(used, sys);
    let a = signed(used) * pow10(sys.scale);
    let s = signed(sys) * pow10(used.scale);
    assert(a == s);
    lemma_pow10_positive(used.scale);
    lemma_pow10_positive(52);
    assert(s != 0) by (nonlinear_arith)
        requires
            s == signed(sys) * pow10(used.scale),
            signed(sys) != 0,
            pow10(used.scale) >= 1,
    ;
    lemma_epsilon_small();
    let e = epsilon_digits() as int;
    let p = pow10(52) as int;
    let t = variation_numerator(used, sys);
    assert(100 * (a - s) * p == 0) by (nonlinear_arith)
        requires
            a == s,
    ;
    assert(t == e * s);
    let m = abs_int(s) as int;
    assert(abs_int(t) == e * m) by (nonlinear_arith)
        requires
            t == e * s,
            e >= 1,
            m == (if s < 0 {
                -s
            } else {
                s
            }),
            abs_int(t) == (if t < 0 {
                -t
            } else {
                t
            }),
    ;
    assert((t < 0) == (s < 0)) by (nonlinear_arith)
        requires
            t == e * s,
            e >= 1,
            s != 0,
    ;
    assert(200 * (e * m) + m * p < 2 * (m * p)) by (nonlinear_arith)
        requires
            200 * e < p,
            m >= 1,
    ;
    assert(m * p >= 1) by (nonlinear_arith)
        requires
            m >= 1,
            p >= 1,
    ;
    vstd::arithmetic::div_mod::lemma_basic_div(200 * (e * m) + m * p, 2 * (m * p));
}

} // verus!
