//! Arbitrary-precision natural numbers held as little-endian decimal digits.
//!
//! `digits[0]` is the units digit. Every operation is specified over
//! `digits_value`, the number that the digits spell.

use vstd::prelude::*;

verus! {

/// `10^n`.
pub open spec fn pow10(n: nat) -> nat
    decreases n,
{
    if n == 0 {
        1
    } else {
        10 * pow10((n - 1) as nat)
    }
}

/// The number spelled by little-endian decimal digits.
pub open spec fn digits_value(s: Seq<u8>) -> nat
    decreases s.len(),
{
    if s.len() == 0 {
        0
    } else {
        s[0] as nat + 10 * digits_value(s.drop_first())
    }
}

/// Every entry is a decimal digit.
pub open spec fn valid_digits(s: Seq<u8>) -> bool {
    forall|i: int| 0 <= i < s.len() ==> #[trigger] s[i] < 10
}

/// The digit at position `i`, or 0 beyond the end.
pub open spec fn digit_at(s: Seq<u8>, i: int) -> nat {
    if 0 <= i < s.len() {
        s[i] as nat
    } else {
        0
    }
}

/// The number spelled by the `n` lowest positions of `s`.
pub open spec fn value_below(s: Seq<u8>, n: nat) -> nat
    decreases n,
{
    if n == 0 {
        0
    } else {
        value_below(s, (n - 1) as nat) + digit_at(s, n - 1) * pow10((n - 1) as nat)
    }
}

/// `k` zero digits.
pub open spec fn zeros(k: nat) -> Seq<u8> {
    Seq::new(k, |i: int| 0u8)
}

pub proof fn lemma_pow10_positive(n: nat)
    ensures
        pow10(n) >= 1,
    decreases n,
{
    if n > 0 {
        lemma_pow10_positive((n - 1) as nat);
    }
}

pub proof fn lemma_pow10_add(a: nat, b: nat)
    ensures
        pow10(a + b) == pow10(a) * pow10(b),
    decreases a,
{
    if a > 0 {
        let a1 = (a - 1) as nat;
        lemma_pow10_add(a1, b);
        let x = pow10(a1);
        let y = pow10(b);
        assert(pow10(a) == 10 * x);
        assert(pow10(a + b) == 10 * pow10((a + b - 1) as nat));
        assert((a + b - 1) as nat == a1 + b);
        assert(10 * (x * y) == (10 * x) * y) by (nonlinear_arith);
    } else {
        assert(pow10(0) == 1);
        assert(1 * pow10(b) == pow10(b));
    }
}

pub proof fn lemma_pow10_monotone(a: nat, b: nat)
    requires
        a <= b,
    ensures
        pow10(a) <= pow10(b),
    decreases b,
{
    if a < b {
        lemma_pow10_monotone(a, (b - 1) as nat);
        lemma_pow10_positive((b - 1) as nat);
    }
}

proof fn lemma_value_below_step(s: Seq<u8>, n: nat)
    requires
        n >= 1,
        s.len() >= 1,
    ensures
        value_below(s, n) == digit_at(s, 0) + 10 * value_below(s.drop_first(), (n - 1) as nat),
    decreases n,
{
    let t = s.drop_first();
    if n > 1 {
        lemma_value_below_step(s, (n - 1) as nat);
        assert(digit_at(s, n - 1) == digit_at(t, n - 2));
        let p = pow10((n - 2) as nat);
        assert(pow10((n - 1) as nat) == 10 * p);
        let a = value_below(t, (n - 2) as nat);
        let d = digit_at(s, n - 1);
        assert(value_below(t, (n - 1) as nat) == a + d * p);
        assert(value_below(s, n) == value_below(s, (n - 1) as nat) + d * (10 * p));
        assert(10 * a + d * (10 * p) == 10 * (a + d * p)) by (nonlinear_arith);
    } else {
        assert(pow10(0) == 1);
        assert(value_below(s, 0) == 0);
        assert(value_below(t, 0) == 0);
        assert(value_below(s, 1) == value_below(s, 0) + digit_at(s, 0) * pow10(0));
    }
}

/// Below any bound at least the length, `value_below` is the whole value.
pub proof fn lemma_value_below_full(s: Seq<u8>, n: nat)
    requires
        n >= s.len(),
    ensures
        value_below(s, n) == digits_value(s),
    decreases s.len(), n,
{
    if s.len() == 0 {
        lemma_value_below_zero_seq(s, n);
    } else {
        lemma_value_below_step(s, n);
        lemma_value_below_full(s.drop_first(), (n - 1) as nat);
    }
}

proof fn lemma_value_below_zero_seq(s: Seq<u8>, n: nat)
    requires
        s.len() == 0,
    ensures
        value_below(s, n) == 0,
    decreases n,
{
    if n > 0 {
        lemma_value_below_zero_seq(s, (n - 1) as nat);
        assert(digit_at(s, n - 1) == 0);
        assert(digit_at(s, n - 1) * pow10((n - 1) as nat) == 0);
    }
}

/// `value_below` only reads the positions below `n`.
pub proof fn lemma_value_below_ext(s: Seq<u8>, t: Seq<u8>, n: nat)
    requires
        forall|i: int| 0 <= i < n ==> digit_at(s, i) == digit_at(t, i),
    ensures
        value_below(s, n) == value_below(t, n),
    decreases n,
{
    if n > 0 {
        lemma_value_below_ext(s, t, (n - 1) as nat);
    }
}

/// Valid digits below `n` spell a number below `10^n`.
pub proof fn lemma_value_below_bound(s: Seq<u8>, n: nat)
    requires
        valid_digits(s),
    ensures
        value_below(s, n) < pow10(n),
    decreases n,
{
    if n > 0 {
        lemma_value_below_bound(s, (n - 1) as nat);
        let p = pow10((n - 1) as nat);
        let d = digit_at(s, n - 1);
        assert(d <= 9);
        assert(d * p <= 9 * p) by (nonlinear_arith)
            requires
                d <= 9,
        ;
    }
}

pub proof fn lemma_value_bound(s: Seq<u8>)
    requires
        valid_digits(s),
    ensures
        digits_value(s) < pow10(s.len()),
{
    lemma_value_below_bound(s, s.len());
    lemma_value_below_full(s, s.len());
}

/// Prepending `k` zeros multiplies the value by `10^k`.
pub proof fn lemma_value_shift(k: nat, s: Seq<u8>)
    ensures
        digits_value(zeros(k) + s) == pow10(k) * digits_value(s),
    decreases k,
{
    if k > 0 {
        let t = zeros(k) + s;
        assert(t.drop_first() =~= zeros((k - 1) as nat) + s);
        lemma_value_shift((k - 1) as nat, s);
        assert(t[0] == 0);
        assert(digits_value(t) == t[0] as nat + 10 * digits_value(t.drop_first()));
        assert(pow10(k) == 10 * pow10((k - 1) as nat));
        assert(10 * (pow10((k - 1) as nat) * digits_value(s)) == (10 * pow10((k - 1) as nat))
            * digits_value(s)) by (nonlinear_arith);
    } else {
        assert(zeros(0) + s =~= s);
        assert(pow10(0) == 1);
    }
}

/// Appending zeros at the top leaves the value unchanged.
pub proof fn lemma_value_pad(s: Seq<u8>, k: nat)
    ensures
        digits_value(s + zeros(k)) == digits_value(s),
{
    lemma_value_below_full(s + zeros(k), (s.len() + k) as nat);
    lemma_value_below_full(s, (s.len() + k) as nat);
    assert forall|i: int| 0 <= i < s.len() + k implies digit_at(s + zeros(k), i) == digit_at(
        s,
        i,
    ) by {}
    lemma_value_below_ext(s + zeros(k), s, (s.len() + k) as nat);
}

/// The value is zero exactly when every digit is zero.
pub proof fn lemma_value_zero(s: Seq<u8>)
    ensures
        digits_value(s) == 0 <==> (forall|i: int| 0 <= i < s.len() ==> #[trigger] s[i] == 0),
    decreases s.len(),
{
    if s.len() > 0 {
        lemma_value_zero(s.drop_first());
        if digits_value(s) == 0 {
            assert forall|i: int| 0 <= i < s.len() implies #[trigger] s[i] == 0 by {
                if i > 0 {
                    assert(s[i] == s.drop_first()[i - 1]);
                }
            }
        }
        if forall|i: int| 0 <= i < s.len() ==> #[trigger] s[i] == 0 {
            assert forall|i: int| 0 <= i < s.drop_first().len() implies #[trigger] s.drop_first()[i]
                == 0 by {
                assert(s.drop_first()[i] == s[i + 1]);
            }
        }
    }
}

/// A nonzero digit makes a nonzero value.
pub proof fn lemma_value_nonzero(s: Seq<u8>, i: int)
    requires
        0 <= i < s.len(),
        s[i] != 0,
    ensures
        digits_value(s) != 0,
{
    lemma_value_zero(s);
}

/// `digits_value` of a suffix, one position at a time.
pub proof fn lemma_value_skip(s: Seq<u8>, i: int)
    requires
        0 <= i < s.len(),
    ensures
        digits_value(s.skip(i)) == s[i] as nat + 10 * digits_value(s.skip(i + 1)),
{
    assert(s.skip(i).drop_first() =~= s.skip(i + 1));
}

/// The number `v`, as digits.
pub open spec fn digits_of_nat(v: nat) -> Seq<u8>
    decreases v,
{
    if v == 0 {
        Seq::empty()
    } else {
        seq![(v % 10) as u8] + digits_of_nat(v / 10)
    }
}

pub proof fn lemma_digits_of_nat(v: nat)
    ensures
        valid_digits(digits_of_nat(v)),
        digits_value(digits_of_nat(v)) == v,
    decreases v,
{
    if v > 0 {
        lemma_digits_of_nat(v / 10);
        let t = digits_of_nat(v);
        assert(t.drop_first() =~= digits_of_nat(v / 10));
        assert forall|i: int| 0 <= i < t.len() implies #[trigger] t[i] < 10 by {
            if i > 0 {
                assert(t[i] == digits_of_nat(v / 10)[i - 1]);
            }
        }
    }
}

/// Whether `s` is zero.
pub fn digits_is_zero(s: &Vec<u8>) -> (r: bool)
    ensures
        r == (digits_value(s@) == 0),
{
    proof {
        lemma_value_zero(s@);
    }
    let mut i: usize = 0;
    while i < s.len()
        invariant
            i <= s.len(),
            forall|j: int| 0 <= j < i ==> #[trigger] s@[j] == 0,
        decreases s.len() - i,
    {
        if s[i] != 0 {
            proof {
                lemma_value_nonzero(s@, i as int);
            }
            return false;
        }
        i = i + 1;
    }
    true
}

/// The digits of a machine integer, without leading zeros.
pub fn digits_from_u64(v: u64) -> (r: Vec<u8>)
    ensures
        valid_digits(r@),
        digits_value(r@) == v,
        r@ == digits_of_nat(v as nat),
{
    let mut r: Vec<u8> = Vec::new();
    let mut x = v;
    while x > 0
        invariant
            valid_digits(r@),
            digits_of_nat(v as nat) == r@ + digits_of_nat(x as nat),
        decreases x,
    {
        let d = (x % 10) as u8;
        proof {
            assert(digits_of_nat(x as nat) == seq![d] + digits_of_nat((x / 10) as nat));
            assert(r@ + digits_of_nat(x as nat) =~= r@.push(d) + digits_of_nat((x / 10) as nat));
        }
        r.push(d);
        x = x / 10;
    }
    proof {
        assert(r@ + digits_of_nat(0) =~= r@);
        lemma_digits_of_nat(v as nat);
    }
    r
}

/// `a + b`.
pub fn digits_add(a: &Vec<u8>, b: &Vec<u8>) -> (r: Vec<u8>)
    requires
        valid_digits(a@),
        valid_digits(b@),
    ensures
        valid_digits(r@),
        digits_value(r@) == digits_value(a@) + digits_value(b@),
{
    let n = if a.len() >= b.len() {
        a.len()
    } else {
        b.len()
    };
    let mut r: Vec<u8> = Vec::new();
    let mut carry: u8 = 0;
    let mut i: usize = 0;
    while i < n
        invariant
            i <= n,
            n == a.len() || n == b.len(),
            a.len() <= n,
            b.len() <= n,
            valid_digits(a@),
            valid_digits(b@),
            valid_digits(r@),
            r.len() == i,
            carry <= 1,
            value_below(r@, i as nat) + carry * pow10(i as nat) == value_below(a@, i as nat)
                + value_below(b@, i as nat),
        decreases n - i,
    {
        let da: u8 = if i < a.len() {
            a[i]
        } else {
            0
        };
        let db: u8 = if i < b.len() {
            b[i]
        } else {
            0
        };
        let s: u8 = da + db + carry;
        let d: u8 = s % 10;
        let c2: u8 = s / 10;
        let ghost old_r = r@;
        r.push(d);
        proof {
            let p = pow10(i as nat);
            assert(digit_at(a@, i as int) == da);
            assert(digit_at(b@, i as int) == db);
            assert forall|j: int| 0 <= j < i implies digit_at(r@, j) == digit_at(old_r, j) by {}
            lemma_value_below_ext(r@, old_r, i as nat);
            assert(digit_at(r@, i as int) == d);
            assert(pow10((i + 1) as nat) == 10 * p);
            assert(d * p + c2 * (10 * p) == (da + db + carry) * p) by (nonlinear_arith)
                requires
                    s == da + db + carry,
                    d == s % 10,
                    c2 == s / 10,
            ;
            assert(da * p + db * p + carry * p == (da + db + carry) * p) by (nonlinear_arith);
        }
        carry = c2;
        i = i + 1;
    }
    proof {
        lemma_value_below_full(a@, n as nat);
        lemma_value_below_full(b@, n as nat);
        lemma_value_below_full(r@, n as nat);
    }
    if carry > 0 {
        let ghost old_r = r@;
        r.push(carry);
        proof {
            assert forall|j: int| 0 <= j < n implies digit_at(r@, j) == digit_at(old_r, j) by {}
            lemma_value_below_ext(r@, old_r, n as nat);
            lemma_value_below_full(r@, (n + 1) as nat);
        }
    }
    r
}

/// `a - b` when `a >= b`; otherwise the flag is set and the digits mean nothing.
pub fn digits_sub(a: &Vec<u8>, b: &Vec<u8>) -> (r: (Vec<u8>, bool))
    requires
        valid_digits(a@),
        valid_digits(b@),
    ensures
        valid_digits(r.0@),
        r.1 == (digits_value(a@) < digits_value(b@)),
        !r.1 ==> digits_value(r.0@) == digits_value(a@) - digits_value(b@),
{
    let n = if a.len() >= b.len() {
        a.len()
    } else {
        b.len()
    };
    let mut r: Vec<u8> = Vec::new();
    let mut borrow: u8 = 0;
    let mut i: usize = 0;
    while i < n
        invariant
            i <= n,
            a.len() <= n,
            b.len() <= n,
            valid_digits(a@),
            valid_digits(b@),
            valid_digits(r@),
            r.len() == i,
            borrow <= 1,
            value_below(r@, i as nat) as int == value_below(a@, i as nat) as int - value_below(
                b@,
                i as nat,
            ) as int + borrow * pow10(i as nat),
        decreases n - i,
    {
        let da: u8 = if i < a.len() {
            a[i]
        } else {
            0
        };
        let db: u8 = if i < b.len() {
            b[i]
        } else {
            0
        };
        let d: u8;
        let b2: u8;
        if da >= db + borrow {
            d = da - db - borrow;
            b2 = 0;
        } else {
            d = da + 10 - db - borrow;
            b2 = 1;
        }
        let ghost old_r = r@;
        r.push(d);
        proof {
            let p = pow10(i as nat);
            assert(digit_at(a@, i as int) == da);
            assert(digit_at(b@, i as int) == db);
            assert forall|j: int| 0 <= j < i implies digit_at(r@, j) == digit_at(old_r, j) by {}
            lemma_value_below_ext(r@, old_r, i as nat);
            assert(digit_at(r@, i as int) == d);
            assert(pow10((i + 1) as nat) == 10 * p);
            assert(d * p - b2 * (10 * p) == (da - db - borrow) * p) by (nonlinear_arith)
                requires
                    d as int - 10 * b2 == da - db - borrow,
            ;
            assert(da * p - db * p - borrow * p == (da - db - borrow) * p) by (nonlinear_arith);
        }
        borrow = b2;
        i = i + 1;
    }
    proof {
        lemma_value_below_full(a@, n as nat);
        lemma_value_below_full(b@, n as nat);
        lemma_value_below_full(r@, n as nat);
        lemma_value_bound(r@);
        lemma_pow10_monotone(r.len() as nat, n as nat);
    }
    (r, borrow == 1)
}

/// Whether `a < b`.
pub fn digits_less(a: &Vec<u8>, b: &Vec<u8>) -> (r: bool)
    requires
        valid_digits(a@),
        valid_digits(b@),
    ensures
        r == (digits_value(a@) < digits_value(b@)),
{
    let (_, borrow) = digits_sub(a, b);
    borrow
}

/// `a * d` for a single digit `d`.
pub fn digits_mul_digit(a: &Vec<u8>, d: u8) -> (r: Vec<u8>)
    requires
        valid_digits(a@),
        d < 10,
    ensures
        valid_digits(r@),
        digits_value(r@) == digits_value(a@) * d,
{
    let n = a.len();
    let mut r: Vec<u8> = Vec::new();
    let mut carry: u8 = 0;
    let mut i: usize = 0;
    assert(value_below(a@, 0) == 0);
    assert(value_below(r@, 0) == 0);
    assert(0 * d == 0);
    assert(carry * pow10(0) == 0);
    while i < n
        invariant
            i <= n,
            n == a.len(),
            d < 10,
            valid_digits(a@),
            valid_digits(r@),
            r.len() == i,
            carry <= 9,
            value_below(r@, i as nat) + carry * pow10(i as nat) == value_below(a@, i as nat) * d,
        decreases n - i,
    {
        let da: u8 = a[i];
        assert(da < 10);
        assert(da * d <= 81) by (nonlinear_arith)
            requires
                da < 10,
                d < 10,
        ;
        let s: u8 = da * d + carry;
        let dg: u8 = s % 10;
        let c2: u8 = s / 10;
        let ghost old_r = r@;
        r.push(dg);
        proof {
            let p = pow10(i as nat);
            let v = value_below(a@, i as nat);
            assert(digit_at(a@, i as int) == da);
            assert forall|j: int| 0 <= j < i implies digit_at(r@, j) == digit_at(old_r, j) by {}
            lemma_value_below_ext(r@, old_r, i as nat);
            assert(digit_at(r@, i as int) == dg);
            assert(pow10((i + 1) as nat) == 10 * p);
            assert(dg * p + c2 * (10 * p) == (da * d + carry) * p) by (nonlinear_arith)
                requires
                    s == da * d + carry,
                    dg == s % 10,
                    c2 == s / 10,
            ;
            assert((v + da * p) * d == v * d + (da * d) * p) by (nonlinear_arith);
            assert((da * d + carry) * p == (da * d) * p + carry * p) by (nonlinear_arith);
        }
        carry = c2;
        i = i + 1;
    }
    proof {
        lemma_value_below_full(a@, n as nat);
        lemma_value_below_full(r@, n as nat);
    }
    if carry > 0 {
        let ghost old_r = r@;
        r.push(carry);
        proof {
            assert forall|j: int| 0 <= j < n implies digit_at(r@, j) == digit_at(old_r, j) by {}
            lemma_value_below_ext(r@, old_r, n as nat);
            lemma_value_below_full(r@, (n + 1) as nat);
        }
    }
    r
}

/// `a * 10^k`: `k` zeros put in front of the units digit.
pub fn digits_shift(a: &Vec<u8>, k: usize) -> (r: Vec<u8>)
    requires
        valid_digits(a@),
    ensures
        valid_digits(r@),
        r@ == zeros(k as nat) + a@,
        digits_value(r@) == pow10(k as nat) * digits_value(a@),
{
    let mut r: Vec<u8> = Vec::new();
    let mut i: usize = 0;
    while i < k
        invariant
            i <= k,
            r@ == zeros(i as nat),
        decreases k - i,
    {
        r.push(0);
        i = i + 1;
        assert(r@ =~= zeros(i as nat));
    }
    let mut j: usize = 0;
    while j < a.len()
        invariant
            j <= a.len(),
            r@ == zeros(k as nat) + a@.take(j as int),
        decreases a.len() - j,
    {
        r.push(a[j]);
        j = j + 1;
        assert(r@ =~= zeros(k as nat) + a@.take(j as int));
    }
    proof {
        assert(a@.take(a.len() as int) =~= a@);
        lemma_value_shift(k as nat, a@);
        assert forall|t: int| 0 <= t < r@.len() implies #[trigger] r@[t] < 10 by {
            if t >= k {
                assert(r@[t] == a@[t - k]);
            }
        }
    }
    r
}

/// `a * b`.
pub fn digits_mul(a: &Vec<u8>, b: &Vec<u8>) -> (r: Vec<u8>)
    requires
        valid_digits(a@),
        valid_digits(b@),
    ensures
        valid_digits(r@),
        digits_value(r@) == digits_value(a@) * digits_value(b@),
{
    let mut acc: Vec<u8> = Vec::new();
    let mut j: usize = b.len();
    assert(b@.skip(j as int) =~= Seq::<u8>::empty());
    assert(digits_value(acc@) == 0);
    assert(digits_value(b@.skip(j as int)) == 0);
    assert(digits_value(a@) * 0 == 0);
    while j > 0
        invariant
            j <= b.len(),
            valid_digits(a@),
            valid_digits(b@),
            valid_digits(acc@),
            digits_value(acc@) == digits_value(a@) * digits_value(b@.skip(j as int)),
        decreases j,
    {
        let bd = b[j - 1];
        let shifted = digits_shift(&acc, 1);
        let part = digits_mul_digit(a, bd);
        let next = digits_add(&shifted, &part);
        proof {
            lemma_value_skip(b@, j - 1);
            let va = digits_value(a@);
            let vs = digits_value(b@.skip(j as int));
            reveal_with_fuel(pow10, 2);
            assert(pow10(1) == 10);
            assert(10 * (va * vs) + va * bd == va * (bd + 10 * vs)) by (nonlinear_arith);
        }
        acc = next;
        j = j - 1;
    }
    assert(b@.skip(0) =~= b@);
    acc
}

/// Quotient and remainder of `a` by a nonzero `b`.
pub fn digits_divmod(a: &Vec<u8>, b: &Vec<u8>) -> (r: (Vec<u8>, Vec<u8>))
    requires
        valid_digits(a@),
        valid_digits(b@),
        digits_value(b@) > 0,
    ensures
        valid_digits(r.0@),
        valid_digits(r.1@),
        digits_value(a@) == digits_value(r.0@) * digits_value(b@) + digits_value(r.1@),
        digits_value(r.1@) < digits_value(b@),
{
    let n = a.len();
    let mut q: Vec<u8> = Vec::new();
    let mut k: usize = 0;
    while k < n
        invariant
            k <= n,
            q@ == zeros(k as nat),
        decreases n - k,
    {
        q.push(0);
        k = k + 1;
        assert(q@ =~= zeros(k as nat));
    }
    let mut rem: Vec<u8> = Vec::new();
    let mut i: usize = n;
    let ghost bv = digits_value(b@);
    assert(a@.skip(n as int) =~= Seq::<u8>::empty());
    assert(q@.skip(n as int) =~= Seq::<u8>::empty());
    assert(digits_value(a@.skip(n as int)) == 0);
    assert(digits_value(q@.skip(n as int)) == 0);
    assert(digits_value(rem@) == 0);
    assert(0 * bv == 0);
    while i > 0
        invariant
            i <= n,
            n == a.len(),
            q.len() == n,
            valid_digits(a@),
            valid_digits(b@),
            valid_digits(q@),
            valid_digits(rem@),
            bv == digits_value(b@),
            bv > 0,
            digits_value(a@.skip(i as int)) == digits_value(q@.skip(i as int)) * bv
                + digits_value(rem@),
            digits_value(rem@) < bv,
        decreases i,
    {
        let ad = a[i - 1];
        let ghost qhi = digits_value(q@.skip(i as int));
        let ghost r_old = digits_value(rem@);
        let mut cur: Vec<u8> = Vec::new();
        cur.push(ad);
        let mut t: usize = 0;
        while t < rem.len()
            invariant
                t <= rem.len(),
                cur@ == seq![ad] + rem@.take(t as int),
            decreases rem.len() - t,
        {
            cur.push(rem[t]);
            t = t + 1;
            assert(cur@ =~= seq![ad] + rem@.take(t as int));
        }
        proof {
            assert(rem@.take(rem.len() as int) =~= rem@);
            assert(cur@.drop_first() =~= rem@);
            assert(ad < 10);
            assert forall|x: int| 0 <= x < cur@.len() implies #[trigger] cur@[x] < 10 by {
                if x > 0 {
                    assert(cur@[x] == rem@[x - 1]);
                }
            }
        }
        let ghost v0 = digits_value(cur@);
        assert(v0 == ad + 10 * r_old);
        assert(v0 < 10 * bv);
        let mut qd: u8 = 0;
        loop
            invariant
                valid_digits(cur@),
                valid_digits(b@),
                bv == digits_value(b@),
                bv > 0,
                v0 < 10 * bv,
                digits_value(cur@) + qd * bv == v0,
                qd < 10,
            ensures
                digits_value(cur@) + qd * bv == v0,
                digits_value(cur@) < bv,
                qd < 10,
                valid_digits(cur@),
            decreases digits_value(cur@),
        {
            let (c2, borrow) = digits_sub(&cur, b);
            if borrow {
                break ;
            }
            proof {
                assert((qd + 1) * bv == qd * bv + bv) by (nonlinear_arith);
                assert((qd + 1) < 10) by (nonlinear_arith)
                    requires
                        (qd + 1) * bv <= v0,
                        v0 < 10 * bv,
                        bv > 0,
                ;
            }
            cur = c2;
            qd = qd + 1;
        }
        let ghost q_old = q@;
        q.set(i - 1, qd);
        proof {
            assert(q@.skip(i as int) =~= q_old.skip(i as int));
            lemma_value_skip(a@, i - 1);
            lemma_value_skip(q@, i - 1);
            assert forall|x: int| 0 <= x < q@.len() implies #[trigger] q@[x] < 10 by {
                if x != i - 1 {
                    assert(q@[x] == q_old[x]);
                }
            }
            let rn = digits_value(cur@);
            assert((qd + 10 * qhi) * bv + rn == 10 * (qhi * bv + r_old) + ad) by (nonlinear_arith)
                requires
                    rn + qd * bv == ad + 10 * r_old,
            ;
        }
        rem = cur;
        i = i - 1;
    }
    assert(a@.skip(0) =~= a@);
    assert(q@.skip(0) =~= q@);
    (q, rem)
}

/// `2^n`.
pub open spec fn pow2n(n: nat) -> nat
    decreases n,
{
    if n == 0 {
        1
    } else {
        2 * pow2n((n - 1) as nat)
    }
}

pub proof fn lemma_pow2n_add(a: nat, b: nat)
    ensures
        pow2n(a + b) == pow2n(a) * pow2n(b),
    decreases a,
{
    if a > 0 {
        let a1 = (a - 1) as nat;
        lemma_pow2n_add(a1, b);
        let x = pow2n(a1);
        let y = pow2n(b);
        assert(pow2n(a + b) == 2 * pow2n((a + b - 1) as nat));
        assert((a + b - 1) as nat == a1 + b);
        assert(2 * (x * y) == (2 * x) * y) by (nonlinear_arith);
    } else {
        assert(pow2n(0) == 1);
        assert(1 * pow2n(b) == pow2n(b));
    }
}

pub proof fn lemma_pow2n_monotone(a: nat, b: nat)
    requires
        a <= b,
    ensures
        1 <= pow2n(a) <= pow2n(b),
    decreases b,
{
    if b > 0 && a < b {
        lemma_pow2n_monotone(a, (b - 1) as nat);
    } else if b > 0 {
        lemma_pow2n_monotone((a - 1) as nat, (b - 1) as nat);
    }
}

/// `2^k <= 10^k`.
pub proof fn lemma_pow2n_le_pow10(k: nat)
    ensures
        pow2n(k) <= pow10(k),
    decreases k,
{
    if k > 0 {
        lemma_pow2n_le_pow10((k - 1) as nat);
    }
}

/// `10^(3k) <= 2^(10k)`, as `1000 <= 1024`.
pub proof fn lemma_pow10_le_pow2n(k: nat)
    ensures
        pow10(3 * k) <= pow2n(10 * k),
    decreases k,
{
    if k > 0 {
        lemma_pow10_le_pow2n((k - 1) as nat);
        lemma_pow10_add(3, (3 * (k - 1)) as nat);
        lemma_pow2n_add(10, (10 * (k - 1)) as nat);
        assert(3 + 3 * (k - 1) == 3 * k);
        assert(10 + 10 * (k - 1) == 10 * k);
        reveal_with_fuel(pow10, 4);
        reveal_with_fuel(pow2n, 11);
        assert(pow10(3) == 1000);
        assert(pow2n(10) == 1024);
        let x = pow10((3 * (k - 1)) as nat);
        let y = pow2n((10 * (k - 1)) as nat);
        assert(1000 * x <= 1024 * y) by (nonlinear_arith)
            requires
                x <= y,
        ;
    }
}

/// Valid digits with a nonzero top digit spell at least `10^(len-1)`.
pub proof fn lemma_value_lower_bound(s: Seq<u8>)
    requires
        valid_digits(s),
        s.len() > 0,
        s.last() != 0,
    ensures
        digits_value(s) >= pow10((s.len() - 1) as nat),
{
    let n = s.len();
    lemma_value_below_full(s, n);
    assert(value_below(s, n) == value_below(s, (n - 1) as nat) + digit_at(s, n - 1) * pow10(
        (n - 1) as nat,
    ));
    let d = digit_at(s, n - 1);
    assert(d >= 1);
    assert(d * pow10((n - 1) as nat) >= pow10((n - 1) as nat)) by (nonlinear_arith)
        requires
            d >= 1,
    ;
}

/// The digits of `2^k`.
pub fn digits_pow2(k: usize) -> (r: Vec<u8>)
    ensures
        valid_digits(r@),
        digits_value(r@) == pow2n(k as nat),
{
    let mut r = digits_from_u64(1);
    let mut i: usize = 0;
    while i < k
        invariant
            i <= k,
            valid_digits(r@),
            digits_value(r@) == pow2n(i as nat),
        decreases k - i,
    {
        r = digits_mul_digit(&r, 2);
        i = i + 1;
    }
    r
}

/// The digits of `10^k`.
pub fn digits_pow10(k: usize) -> (r: Vec<u8>)
    ensures
        valid_digits(r@),
        digits_value(r@) == pow10(k as nat),
{
    let one = digits_from_u64(1);
    let r = digits_shift(&one, k);
    assert(pow10(k as nat) * 1 == pow10(k as nat));
    r
}

} // verus!
