//! Reading numbers written in the grammar of `f64::from_str`, as exact
//! decimals.
//!
//! The accepted text is the grammar of `f64::from_str`:
//!
//! ```text
//! Float  ::= Sign? ( 'inf' | 'infinity' | 'nan' | Number )
//! Number ::= ( Digit+ | Digit+ '.' Digit* | Digit* '.' Digit+ ) Exp?
//! Exp    ::= 'e' Sign? Digit+
//! Sign   ::= [+-]
//! ```
//!
//! with letters in either case. The number is kept exactly as written, not
//! rounded to the nearest `f64`; only the range of `f64` applies: a number whose magnitude rounds to infinity as an
//! `f64` is not finite, and one whose magnitude rounds to zero is zero.

use vstd::prelude::*;
use crate::decimal::{canonical, value_eq, Decimal, DecimalValue};
use crate::natural::{
    digits_less, digits_mul, digits_pow10, digits_pow2, digits_shift, digits_sub, digits_value,
    lemma_pow10_add, lemma_pow10_le_pow2n, lemma_pow10_monotone, lemma_pow10_positive,
    lemma_pow2n_add, lemma_pow2n_le_pow10, lemma_pow2n_monotone, lemma_value_bound,
    lemma_value_lower_bound, lemma_value_pad, pow10, pow2n, valid_digits, zeros,
};
use crate::text::chars_of;

verus! {

pub open spec fn is_digit_char(c: char) -> bool {
    '0' <= c && c <= '9'
}

pub open spec fn char_digit(c: char) -> nat {
    (c as int - '0' as int) as nat
}

/// The number of ASCII digits at the start of `s`.
pub open spec fn leading_digits(s: Seq<char>) -> nat
    decreases s.len(),
{
    if s.len() > 0 && is_digit_char(s[0]) {
        1 + leading_digits(s.drop_first())
    } else {
        0
    }
}

/// The number that a string of ASCII digits spells, most significant first.
pub open spec fn digit_string_value(s: Seq<char>) -> nat
    decreases s.len(),
{
    if s.len() == 0 {
        0
    } else {
        10 * digit_string_value(s.drop_last()) + char_digit(s.last())
    }
}

/// `s` spells the word whose lowercase letters are `lower` and uppercase
/// letters are `upper`, in any mix of cases.
pub open spec fn spells(s: Seq<char>, lower: Seq<char>, upper: Seq<char>) -> bool {
    s.len() == lower.len() && forall|i: int|
        0 <= i < s.len() ==> (#[trigger] s[i] == lower[i] || s[i] == upper[i])
}

/// `inf`, `infinity` or `nan`, in any mix of cases.
pub open spec fn is_special_word(s: Seq<char>) -> bool {
    ||| spells(s, seq!['i', 'n', 'f'], seq!['I', 'N', 'F'])
    ||| spells(
        s,
        seq!['i', 'n', 'f', 'i', 'n', 'i', 't', 'y'],
        seq!['I', 'N', 'F', 'I', 'N', 'I', 'T', 'Y'],
    )
    ||| spells(s, seq!['n', 'a', 'n'], seq!['N', 'A', 'N'])
}

/// The parts of a number in the grammar.
pub struct NumeralParts {
    pub negative: bool,
    /// The integer digits followed by the fractional digits.
    pub mantissa: Seq<char>,
    pub fraction_len: nat,
    pub exponent_negative: bool,
    pub exponent_digits: Seq<char>,
}

pub enum NumeralShape {
    Special,
    Number(NumeralParts),
}

/// The length of an optional leading sign.
pub open spec fn sign_len(s: Seq<char>) -> nat {
    if s.len() > 0 && (s[0] == '-' || s[0] == '+') {
        1
    } else {
        0
    }
}

/// The length of an optional leading `.`.
pub open spec fn point_len(s: Seq<char>) -> nat {
    if s.len() > 0 && s[0] == '.' {
        1
    } else {
        0
    }
}

/// The optional `Exp` that ends a number: its sign and digits.
pub open spec fn exponent_part(r: Seq<char>) -> Option<(bool, Seq<char>)> {
    if r.len() == 0 {
        Some((false, Seq::empty()))
    } else if r[0] == 'e' || r[0] == 'E' {
        let r3 = r.skip(1);
        let r4 = r3.skip(sign_len(r3) as int);
        if r4.len() > 0 && leading_digits(r4) == r4.len() {
            Some((r3.len() > 0 && r3[0] == '-', r4))
        } else {
            None
        }
    } else {
        None
    }
}

/// An unsigned `Number`: the integer and fractional digits, the number of
/// fractional digits, and the exponent.
pub open spec fn number_parts(b: Seq<char>) -> Option<(Seq<char>, nat, bool, Seq<char>)> {
    let i = leading_digits(b);
    let r1 = b.skip(i as int);
    let pl = point_len(r1);
    let f = if pl == 1 {
        leading_digits(r1.skip(1))
    } else {
        0
    };
    let r2 = r1.skip((pl + f) as int);
    if i + f == 0 {
        None
    } else {
        match exponent_part(r2) {
            None => None,
            Some((eneg, ed)) => Some((b.take(i as int) + r1.subrange(pl as int, (pl + f) as int), f, eneg, ed)),
        }
    }
}

/// How `s` reads in the grammar of `f64::from_str`, if it does.
pub open spec fn numeral_shape(s: Seq<char>) -> Option<NumeralShape> {
    let b = s.skip(sign_len(s) as int);
    if is_special_word(b) {
        Some(NumeralShape::Special)
    } else {
        match number_parts(b) {
            None => None,
            Some((mantissa, f, eneg, ed)) => Some(
                NumeralShape::Number(
                    NumeralParts {
                        negative: s.len() > 0 && s[0] == '-',
                        mantissa,
                        fraction_len: f,
                        exponent_negative: eneg,
                        exponent_digits: ed,
                    },
                ),
            ),
        }
    }
}

/// The power of ten that scales the mantissa.
pub open spec fn numeral_exponent(p: NumeralParts) -> int {
    (if p.exponent_negative {
        -(digit_string_value(p.exponent_digits) as int)
    } else {
        digit_string_value(p.exponent_digits) as int
    }) - p.fraction_len
}

/// The smallest magnitude that rounds to infinity as an `f64`: `2^1024 - 2^970`.
pub open spec fn f64_overflow_threshold() -> nat {
    (pow2n(1024) - pow2n(970)) as nat
}

/// `m * 10^e` rounds to infinity as an `f64`.
pub open spec fn overflows(m: nat, e: int) -> bool {
    if e >= 0 {
        m * pow10(e as nat) >= f64_overflow_threshold()
    } else {
        m >= f64_overflow_threshold() * pow10((-e) as nat)
    }
}

/// `m * 10^e` rounds to zero as an `f64`: it is at most `2^-1075`.
pub open spec fn underflows(m: nat, e: int) -> bool {
    e < 0 && m * pow2n(1075) <= pow10((-e) as nat)
}

/// `(-1)^negative * m * 10^e`, exactly.
pub open spec fn exact_value(negative: bool, m: nat, e: int) -> DecimalValue {
    if e >= 0 {
        DecimalValue { negative, magnitude: m * pow10(e as nat), scale: 0 }
    } else {
        DecimalValue { negative, magnitude: m, scale: (-e) as nat }
    }
}

/// The finite number that `s` spells, kept exactly (not rounded to an `f64`);
/// `None` when `s` is not in the grammar, or denotes infinity or not-a-number.
pub open spec fn parse_finite(s: Seq<char>) -> Option<DecimalValue> {
    match numeral_shape(s) {
        Some(NumeralShape::Number(p)) => finite_of(
            p.negative,
            digit_string_value(p.mantissa),
            numeral_exponent(p),
        ),
        _ => None,
    }
}

proof fn lemma_leading_digits_exact(s: Seq<char>, k: nat)
    requires
        k <= s.len(),
        forall|t: int| 0 <= t < k ==> is_digit_char(#[trigger] s[t]),
        k == s.len() || !is_digit_char(s[k as int]),
    ensures
        leading_digits(s) == k,
    decreases k,
{
    if k > 0 {
        assert forall|t: int| 0 <= t < k - 1 implies is_digit_char(#[trigger] s.drop_first()[t]) by {
            assert(s.drop_first()[t] == s[t + 1]);
        }
        if k < s.len() {
            assert(s.drop_first()[k - 1] == s[k as int]);
        }
        lemma_leading_digits_exact(s.drop_first(), (k - 1) as nat);
    }
}

/// The number of digits at `start`.
fn count_digits(c: &Vec<char>, start: usize) -> (k: usize)
    requires
        start <= c.len(),
    ensures
        start + k <= c.len(),
        k == leading_digits(c@.skip(start as int)),
        forall|t: int| start <= t < start + k ==> is_digit_char(#[trigger] c@[t]),
{
    let mut k: usize = 0;
    while start + k < c.len() && '0' <= c[start + k] && c[start + k] <= '9'
        invariant
            start + k <= c.len(),
            forall|t: int| start <= t < start + k ==> is_digit_char(#[trigger] c@[t]),
        decreases c.len() - start - k,
    {
        k = k + 1;
    }
    proof {
        let s = c@.skip(start as int);
        assert forall|t: int| 0 <= t < k implies is_digit_char(#[trigger] s[t]) by {
            assert(s[t] == c@[start + t]);
        }
        if start + k < c.len() {
            assert(s[k as int] == c@[start + k]);
        }
        lemma_leading_digits_exact(s, k as nat);
    }
    k
}

fn letter_at(c: &Vec<char>, i: usize, lower: char, upper: char) -> (r: bool)
    requires
        i < c.len(),
    ensures
        r == (c@[i as int] == lower || c@[i as int] == upper),
{
    c[i] == lower || c[i] == upper
}

/// Whether the characters from `start` spell `inf`, `infinity` or `nan`.
fn special_at(c: &Vec<char>, start: usize) -> (r: bool)
    requires
        start <= c.len(),
    ensures
        r == is_special_word(c@.skip(start as int)),
{
    let n = c.len() - start;
    let inf = n == 3 && letter_at(c, start, 'i', 'I') && letter_at(c, start + 1, 'n', 'N')
        && letter_at(c, start + 2, 'f', 'F');
    let nan = n == 3 && letter_at(c, start, 'n', 'N') && letter_at(c, start + 1, 'a', 'A')
        && letter_at(c, start + 2, 'n', 'N');
    let infinity = n == 8 && letter_at(c, start, 'i', 'I') && letter_at(c, start + 1, 'n', 'N')
        && letter_at(c, start + 2, 'f', 'F') && letter_at(c, start + 3, 'i', 'I') && letter_at(
        c,
        start + 4,
        'n',
        'N',
    ) && letter_at(c, start + 5, 'i', 'I') && letter_at(c, start + 6, 't', 'T') && letter_at(
        c,
        start + 7,
        'y',
        'Y',
    );
    proof {
        let s = c@.skip(start as int);
        assert forall|i: int| 0 <= i < s.len() implies s[i] == c@[start + i] by {}
        let l1 = seq!['i', 'n', 'f'];
        let u1 = seq!['I', 'N', 'F'];
        let l2 = seq!['i', 'n', 'f', 'i', 'n', 'i', 't', 'y'];
        let u2 = seq!['I', 'N', 'F', 'I', 'N', 'I', 'T', 'Y'];
        let l3 = seq!['n', 'a', 'n'];
        let u3 = seq!['N', 'A', 'N'];
        if spells(s, l1, u1) {
            assert(s[0] == l1[0] || s[0] == u1[0]);
            assert(s[1] == l1[1] || s[1] == u1[1]);
            assert(s[2] == l1[2] || s[2] == u1[2]);
        }
        if spells(s, l3, u3) {
            assert(s[0] == l3[0] || s[0] == u3[0]);
            assert(s[1] == l3[1] || s[1] == u3[1]);
            assert(s[2] == l3[2] || s[2] == u3[2]);
        }
        if spells(s, l2, u2) {
            assert(s[0] == l2[0] || s[0] == u2[0]);
            assert(s[1] == l2[1] || s[1] == u2[1]);
            assert(s[2] == l2[2] || s[2] == u2[2]);
            assert(s[3] == l2[3] || s[3] == u2[3]);
            assert(s[4] == l2[4] || s[4] == u2[4]);
            assert(s[5] == l2[5] || s[5] == u2[5]);
            assert(s[6] == l2[6] || s[6] == u2[6]);
            assert(s[7] == l2[7] || s[7] == u2[7]);
        }
        if inf {
            assert(spells(s, l1, u1));
        }
        if nan {
            assert(spells(s, l3, u3));
        }
        if infinity {
            assert(spells(s, l2, u2));
        }
    }
    inf || nan || infinity
}

/// Digits little-endian of the big-endian digit string `s`.
spec fn reversed_digits(s: Seq<char>) -> Seq<u8> {
    Seq::new(s.len(), |t: int| char_digit(s[s.len() - 1 - t]) as u8)
}

proof fn lemma_reversed_digits(s: Seq<char>)
    requires
        forall|t: int| 0 <= t < s.len() ==> is_digit_char(#[trigger] s[t]),
    ensures
        digits_value(reversed_digits(s)) == digit_string_value(s),
        valid_digits(reversed_digits(s)),
    decreases s.len(),
{
    let r = reversed_digits(s);
    assert forall|t: int| 0 <= t < r.len() implies #[trigger] r[t] < 10 by {
        assert(is_digit_char(s[s.len() - 1 - t]));
    }
    if s.len() > 0 {
        let d = s.drop_last();
        assert forall|t: int| 0 <= t < d.len() implies is_digit_char(#[trigger] d[t]) by {
            assert(d[t] == s[t]);
        }
        lemma_reversed_digits(d);
        assert(r.drop_first() =~= reversed_digits(d));
        assert(is_digit_char(s.last()));
        assert(r[0] as nat == char_digit(s.last()));
    }
}

/// The exponent digits read with a ceiling: the exact value, or at least the ceiling.
fn read_exponent(c: &Vec<char>, start: usize) -> (r: (u128, bool))
    requires
        start <= c.len(),
        forall|t: int| start <= t < c.len() ==> is_digit_char(#[trigger] c@[t]),
    ensures
        !r.1 ==> r.0 == digit_string_value(c@.subrange(start as int, c.len() as int)),
        r.1 ==> digit_string_value(c@.subrange(start as int, c.len() as int)) >= 0x40_0000_0000_0000_0000u128,
        !r.1 ==> r.0 < 0x40_0000_0000_0000_0000u128,
{
    let cap: u128 = 0x40_0000_0000_0000_0000;
    let mut e: u128 = 0;
    let mut saturated = false;
    let mut i: usize = start;
    assert(c@.subrange(start as int, start as int) =~= Seq::<char>::empty());
    while i < c.len()
        invariant
            start <= i <= c.len(),
            forall|t: int| start <= t < c.len() ==> is_digit_char(#[trigger] c@[t]),
            !saturated ==> e == digit_string_value(c@.subrange(start as int, i as int)),
            !saturated ==> e < cap,
            saturated ==> digit_string_value(c@.subrange(start as int, i as int)) >= cap,
            cap == 0x40_0000_0000_0000_0000u128,
        decreases c.len() - i,
    {
        let ch = c[i];
        assert(is_digit_char(c@[i as int]));
        let d = (ch as u32 - '0' as u32) as u128;
        let ghost prev = c@.subrange(start as int, i as int);
        let ghost next = c@.subrange(start as int, i + 1);
        assert(next.drop_last() =~= prev);
        assert(next.last() == ch);
        assert(digit_string_value(next) == 10 * digit_string_value(prev) + char_digit(ch));
        if !saturated {
            let v = e * 10 + d;
            if v >= cap {
                saturated = true;
            } else {
                e = v;
            }
        }
        i = i + 1;
    }
    (e, saturated)
}

/// The number `(-1)^negative * m * 10^e`, kept exactly when it lies in the
/// range of `f64`.
pub open spec fn finite_of(negative: bool, m: nat, e: int) -> Option<DecimalValue> {
    if m == 0 || underflows(m, e) {
        if m != 0 && overflows(m, e) {
            None
        } else {
            Some(DecimalValue { negative, magnitude: 0, scale: 0 })
        }
    } else if overflows(m, e) {
        None
    } else {
        Some(exact_value(negative, m, e))
    }
}

/// `d` denotes `v`, sign included.
pub open spec fn denotes(d: Option<Decimal>, v: Option<DecimalValue>) -> bool {
    match v {
        None => d is None,
        Some(v) => d matches Some(x) && value_eq(x@, v) && x@.negative == v.negative && canonical(
            x@,
        ),
    }
}

/// What the lexer found in a number.
struct Lexed {
    negative: bool,
    mantissa: Vec<char>,
    fraction_len: usize,
    exponent_negative: bool,
    exponent_start: usize,
}

/// Reads the optional exponent that starts at `start` and must end the text.
fn lex_exponent(c: &Vec<char>, start: usize) -> (r: Option<(bool, usize)>)
    requires
        start <= c.len(),
    ensures
        match exponent_part(c@.skip(start as int)) {
            None => r is None,
            Some((eneg, ed)) => r matches Some((neg, es)) && neg == eneg && es <= c.len() && ed
                == c@.subrange(es as int, c.len() as int),
        },
{
    let n = c.len();
    let ghost r = c@.skip(start as int);
    if start == n {
        assert(c@.subrange(n as int, n as int) =~= Seq::<char>::empty());
        return Some((false, n));
    }
    if c[start] != 'e' && c[start] != 'E' {
        return None;
    }
    let mut k = start + 1;
    let mut eneg = false;
    let ghost r3 = c@.skip(start + 1);
    proof {
        assert(r.skip(1) =~= r3);
    }
    if k < n && (c[k] == '-' || c[k] == '+') {
        eneg = c[k] == '-';
        k = k + 1;
        proof {
            assert(r3[0] == c@[start + 1]);
            assert(sign_len(r3) == 1);
            assert(r3.skip(1) =~= c@.skip(k as int));
        }
    } else {
        proof {
            if r3.len() > 0 {
                assert(r3[0] == c@[start + 1]);
            }
            assert(sign_len(r3) == 0);
            assert(r3.skip(0) =~= r3);
        }
    }
    assert(r3.skip(sign_len(r3) as int) =~= c@.skip(k as int));
    assert(eneg == (r3.len() > 0 && r3[0] == '-'));
    let ed = count_digits(c, k);
    if ed == 0 || k + ed != n {
        return None;
    }
    assert(c@.skip(k as int) =~= c@.subrange(k as int, n as int));
    Some((eneg, k))
}

/// `c[a..b]` followed by `c[x..y]`.
fn copy_two_ranges(c: &Vec<char>, a: usize, b: usize, x: usize, y: usize) -> (r: Vec<char>)
    requires
        a <= b <= x <= y <= c.len(),
    ensures
        r@ == c@.subrange(a as int, b as int) + c@.subrange(x as int, y as int),
{
    let mut be: Vec<char> = Vec::new();
    let mut t: usize = a;
    while t < b
        invariant
            a <= t <= b,
            b <= c.len(),
            be@ == c@.subrange(a as int, t as int),
        decreases b - t,
    {
        be.push(c[t]);
        t = t + 1;
        assert(be@ =~= c@.subrange(a as int, t as int));
    }
    let mut t2: usize = x;
    while t2 < y
        invariant
            x <= t2 <= y,
            y <= c.len(),
            be@ == c@.subrange(a as int, b as int) + c@.subrange(x as int, t2 as int),
        decreases y - t2,
    {
        be.push(c[t2]);
        t2 = t2 + 1;
        assert(be@ =~= c@.subrange(a as int, b as int) + c@.subrange(x as int, t2 as int));
    }
    be
}

/// Reads an unsigned `Number` from `start` to the end of the text.
#[verifier::rlimit(40)]
fn lex_number(c: &Vec<char>, start: usize) -> (r: Option<Lexed>)
    requires
        start <= c.len(),
    ensures
        match number_parts(c@.skip(start as int)) {
            None => r is None,
            Some((mantissa, f, eneg, ed)) => r matches Some(l) && l.mantissa@ == mantissa
                && l.fraction_len == f && l.exponent_negative == eneg && l.exponent_start
                <= c.len() && ed == c@.subrange(l.exponent_start as int, c.len() as int)
                && l.mantissa.len() <= c.len(),
        },
        r matches Some(l) ==> forall|t: int|
            0 <= t < l.mantissa.len() ==> is_digit_char(#[trigger] l.mantissa@[t]),
        r matches Some(l) ==> l.fraction_len <= l.mantissa.len(),
{
    let n = c.len();
    let ghost b = c@.skip(start as int);
    let i = count_digits(c, start);
    let q = start + i;
    let has_point = q < n && c[q] == '.';
    proof {
        assert(b.skip(i as int) =~= c@.skip(q as int));
    }
    let f: usize = if has_point {
        count_digits(c, q + 1)
    } else {
        0
    };
    let pl: usize = if has_point {
        1
    } else {
        0
    };
    let r2 = q + pl + f;
    proof {
        let r1 = b.skip(i as int);
        if has_point {
            assert(r1.skip(1) =~= c@.skip(q + 1));
        }
        assert(r1.skip(pl + f) =~= c@.skip(r2 as int));
    }
    if i + f == 0 {
        return None;
    }
    let ex = lex_exponent(c, r2);
    let (eneg, estart) = match ex {
        None => {
            return None;
        },
        Some(x) => x,
    };
    let be = copy_two_ranges(c, start, q, q + pl, q + pl + f);
    proof {
        let r1 = b.skip(i as int);
        assert(b.take(i as int) =~= c@.subrange(start as int, q as int));
        assert(r1.subrange(pl as int, pl + f) =~= c@.subrange(q + pl, q + pl + f));
        assert forall|x: int| 0 <= x < be@.len() implies is_digit_char(#[trigger] be@[x]) by {
            if x < i {
                assert(be@[x] == c@[start + x]);
            } else {
                assert(be@[x] == c@[q + pl + x - i]);
            }
        }
    }
    Some(Lexed { negative: false, mantissa: be, fraction_len: f, exponent_negative: eneg, exponent_start: estart })
}

/// Splits `c` into the parts of a number of the grammar; `None` when `c` is
/// not in it or is one of the special words.
fn lex_numeral(c: &Vec<char>) -> (r: Option<Lexed>)
    ensures
        r is None ==> !(numeral_shape(c@) matches Some(NumeralShape::Number(_))),
        r matches Some(l) ==> {
            &&& l.exponent_start <= c.len()
            &&& l.fraction_len <= l.mantissa.len() <= c.len()
            &&& forall|t: int| l.exponent_start <= t < c.len() ==> is_digit_char(#[trigger] c@[t])
            &&& forall|t: int| 0 <= t < l.mantissa.len() ==> is_digit_char(#[trigger] l.mantissa@[t])
            &&& numeral_shape(c@) == Some(
                NumeralShape::Number(
                    NumeralParts {
                        negative: l.negative,
                        mantissa: l.mantissa@,
                        fraction_len: l.fraction_len as nat,
                        exponent_negative: l.exponent_negative,
                        exponent_digits: c@.subrange(l.exponent_start as int, c.len() as int),
                    },
                ),
            )
        },
{
    let n = c.len();
    let mut p: usize = 0;
    let mut negative = false;
    if n > 0 && (c[0] == '-' || c[0] == '+') {
        negative = c[0] == '-';
        p = 1;
    }
    assert(p == sign_len(c@));
    if special_at(c, p) {
        return None;
    }
    let parts = lex_number(c, p);
    match parts {
        None => None,
        Some(l) => {
            proof {
                let ed = c@.subrange(l.exponent_start as int, n as int);
                assert forall|t: int| l.exponent_start <= t < n implies is_digit_char(
                    #[trigger] c@[t],
                ) by {
                    assert(ed[t - l.exponent_start] == c@[t]);
                    assert(leading_digits(ed) == ed.len() ==> is_digit_char(ed[t - l.exponent_start]))
                        by {
                        if leading_digits(ed) == ed.len() {
                            lemma_leading_digits_all(ed, t - l.exponent_start);
                        }
                    }
                }
                assert(l.fraction_len <= l.mantissa.len());
            }
            Some(Lexed { negative, ..l })
        },
    }
}

proof fn lemma_leading_digits_bound(s: Seq<char>)
    ensures
        leading_digits(s) <= s.len(),
    decreases s.len(),
{
    if s.len() > 0 {
        lemma_leading_digits_bound(s.drop_first());
    }
}

proof fn lemma_leading_digits_all(s: Seq<char>, t: int)
    requires
        0 <= t < leading_digits(s),
    ensures
        is_digit_char(s[t]),
    decreases s.len(),
{
    assert(s.len() > 0 && is_digit_char(s[0]));
    lemma_leading_digits_bound(s);
    if t > 0 {
        assert(s.drop_first()[t - 1] == s[t]);
        lemma_leading_digits_all(s.drop_first(), t - 1);
    }
}

/// The canonical little-endian digits of a big-endian digit string.
fn mantissa_digits(be: &Vec<char>) -> (r: Vec<u8>)
    requires
        forall|t: int| 0 <= t < be.len() ==> is_digit_char(#[trigger] be@[t]),
    ensures
        valid_digits(r@),
        r.len() <= be.len(),
        r.len() > 0 ==> r@.last() != 0,
        digits_value(r@) == digit_string_value(be@),
{
    let m = be.len();
    let mut le: Vec<u8> = Vec::new();
    let mut u: usize = 0;
    while u < m
        invariant
            u <= m,
            m == be.len(),
            forall|x: int| 0 <= x < be@.len() ==> is_digit_char(#[trigger] be@[x]),
            le@ == reversed_digits(be@).take(u as int),
        decreases m - u,
    {
        let ch = be[m - 1 - u];
        assert(is_digit_char(be@[m - 1 - u]));
        le.push((ch as u32 - '0' as u32) as u8);
        u = u + 1;
        assert(le@ =~= reversed_digits(be@).take(u as int));
    }
    proof {
        assert(le@ =~= reversed_digits(be@));
        lemma_reversed_digits(be@);
    }
    let mut top: usize = le.len();
    while top > 0 && le[top - 1] == 0
        invariant
            top <= le.len(),
            forall|x: int| top <= x < le.len() ==> #[trigger] le@[x] == 0,
        decreases top,
    {
        top = top - 1;
    }
    let mut digits: Vec<u8> = Vec::new();
    let mut w: usize = 0;
    while w < top
        invariant
            w <= top,
            top <= le.len(),
            digits@ == le@.take(w as int),
        decreases top - w,
    {
        digits.push(le[w]);
        w = w + 1;
        assert(digits@ =~= le@.take(w as int));
    }
    proof {
        assert(le@ =~= digits@ + zeros((le.len() - top) as nat));
        lemma_value_pad(digits@, (le.len() - top) as nat);
        assert forall|x: int| 0 <= x < digits@.len() implies #[trigger] digits@[x] < 10 by {
            assert(digits@[x] == le@[x]);
        }
    }
    digits
}

/// The finite number `(-1)^negative * digits * 10^e`, for canonical nonzero digits.
#[verifier::rlimit(30)]
fn finite_in_range(negative: bool, digits: Vec<u8>, e: i128) -> (r: Option<Decimal>)
    requires
        valid_digits(digits@),
        digits.len() > 0,
        digits@.last() != 0,
        digits.len() * 4 <= isize::MAX,
        -0x80_0000_0000_0000_0000 <= e <= 0x80_0000_0000_0000_0000,
    ensures
        denotes(r, finite_of(negative, digits_value(digits@), e as int)),
{
    let ghost mv = digits_value(digits@);
    let nd = digits.len();
    proof {
        lemma_value_lower_bound(digits@);
        lemma_value_bound(digits@);
        lemma_pow10_positive((nd - 1) as nat);
    }
    let ndi = nd as i128;
    if e >= 0 {
        if ndi + e >= 1025 {
            proof {
                lemma_overflow_big(mv, nd as nat, e as int);
            }
            return None;
        }
        let ghost en = e as nat;
        let shifted = digits_shift(&digits, e as usize);
        proof {
            assert(mv * pow10(en) == pow10(en) * mv) by (nonlinear_arith);
        }
        if ndi + e > 288 {
            let threshold = overflow_threshold_digits();
            if !digits_less(&shifted, &threshold) {
                return None;
            }
        } else {
            proof {
                lemma_no_overflow_small(mv, nd as nat, e as int);
            }
        }
        let r = Decimal::from_parts(negative, shifted, 0);
        return Some(r);
    }
    let k: i128 = -e;
    if ndi - k >= 1025 {
        proof {
            lemma_overflow_big(mv, nd as nat, e as int);
        }
        return None;
    }
    proof {
        assert(pow10(k as nat) * f64_overflow_threshold() == f64_overflow_threshold() * pow10(
            k as nat,
        )) by (nonlinear_arith);
    }
    if ndi - k > 288 {
        let threshold = overflow_threshold_digits();
        let scaled = digits_shift(&threshold, k as usize);
        if !digits_less(&digits, &scaled) {
            return None;
        }
    } else {
        proof {
            lemma_no_overflow_small(mv, nd as nat, e as int);
        }
    }
    if ndi - 1 - k < -300 {
        if k >= ndi + 1075 {
            proof {
                lemma_underflow_far(mv, nd as nat, e as int);
            }
            return Some(Decimal::zero(negative));
        }
        let ten_k = digits_pow10(k as usize);
        let p2 = digits_pow2(1075);
        let scaled = digits_mul(&digits, &p2);
        if !digits_less(&ten_k, &scaled) {
            assert(underflows(mv, e as int));
            assert(!overflows(mv, e as int));
            return Some(Decimal::zero(negative));
        }
        assert(!underflows(mv, e as int));
    } else {
        proof {
            lemma_no_underflow_near(mv, nd as nat, e as int);
        }
    }
    assert(!overflows(mv, e as int));
    assert(!underflows(mv, e as int));
    let ghost dv = digits@;
    let r = Decimal::from_parts(negative, digits, k as usize);
    assert(exact_value(negative, mv, e as int) == DecimalValue {
        negative,
        magnitude: digits_value(dv),
        scale: k as nat,
    });
    proof {
        crate::decimal::lemma_normalize(exact_value(negative, mv, e as int));
    }
    Some(r)
}

/// Reads `text` in the grammar of `f64::from_str`, keeping the number exactly.
pub fn parse_finite_number(text: &str) -> (r: Option<Decimal>)
    ensures
        denotes(r, parse_finite(text@)),
{
    let c = chars_of(text);
    parse_finite_chars(&c)
}

/// Reads the characters `c` in the grammar of `f64::from_str`, keeping the
/// number exactly.
pub fn parse_finite_chars(c: &Vec<char>) -> (r: Option<Decimal>)
    requires
        c@.len() * 4 <= isize::MAX,
    ensures
        denotes(r, parse_finite(c@)),
{
    let lexed = lex_numeral(c);
    let l = match lexed {
        None => {
            return None;
        },
        Some(l) => l,
    };
    let n = c.len();
    let digits = mantissa_digits(&l.mantissa);
    let (ev, saturated) = if l.exponent_start < n {
        read_exponent(c, l.exponent_start)
    } else {
        assert(c@.subrange(n as int, n as int) =~= Seq::<char>::empty());
        (0u128, false)
    };
    let ghost edigits = c@.subrange(l.exponent_start as int, n as int);
    let ghost e_true = (if l.exponent_negative {
        -(digit_string_value(edigits) as int)
    } else {
        digit_string_value(edigits) as int
    }) - l.fraction_len;
    let ghost mv = digit_string_value(l.mantissa@);
    if digits.len() == 0 {
        return Some(Decimal::zero(l.negative));
    }
    if saturated {
        proof {
            lemma_value_lower_bound(digits@);
            lemma_value_bound(digits@);
            lemma_range_far(mv, digits.len() as nat, e_true);
        }
        if l.exponent_negative {
            return Some(Decimal::zero(l.negative));
        } else {
            return None;
        }
    }
    let f = l.fraction_len as i128;
    let e: i128 = if l.exponent_negative {
        -(ev as i128) - f
    } else {
        (ev as i128) - f
    };
    finite_in_range(l.negative, digits, e)
}

/// The digits of `2^1024 - 2^970`.
fn overflow_threshold_digits() -> (r: Vec<u8>)
    ensures
        valid_digits(r@),
        digits_value(r@) == f64_overflow_threshold(),
{
    let hi = digits_pow2(1024);
    let lo = digits_pow2(970);
    let (d, borrow) = digits_sub(&hi, &lo);
    proof {
        lemma_pow2n_monotone(970, 1024);
    }
    d
}

/// `2^970 <= 2^1024 - 2^970`, and `10^288 <= 2^970`.
proof fn lemma_threshold_bounds()
    ensures
        pow10(288) <= f64_overflow_threshold(),
        f64_overflow_threshold() < pow10(1024),
        f64_overflow_threshold() >= 1,
{
    lemma_pow2n_add(970, 54);
    lemma_pow2n_monotone(1, 54);
    lemma_pow2n_monotone(0, 970);
    reveal_with_fuel(pow2n, 2);
    assert(pow2n(1) == 2);
    let a = pow2n(970);
    let b = pow2n(54);
    assert(a * b - a >= a) by (nonlinear_arith)
        requires
            b >= 2,
            a >= 1,
    ;
    lemma_pow2n_monotone(0, 970);
    lemma_pow10_le_pow2n(96);
    lemma_pow2n_monotone(960, 970);
    lemma_pow2n_le_pow10(1024);
}

/// With `m` of `nd` digits, `m * 10^e` is at least `10^1024` when `nd + e >= 1025`.
proof fn lemma_overflow_big(m: nat, nd: nat, e: int)
    requires
        nd >= 1,
        pow10((nd - 1) as nat) <= m,
        nd + e >= 1025,
    ensures
        overflows(m, e),
{
    lemma_threshold_bounds();
    let k = (nd - 1 + e - 1024) as nat;
    if e >= 0 {
        let en = e as nat;
        lemma_pow10_add((nd - 1) as nat, en);
        lemma_pow10_monotone(1024, (nd - 1 + en) as nat);
        assert(m * pow10(en) >= pow10((nd - 1) as nat) * pow10(en)) by (nonlinear_arith)
            requires
                pow10((nd - 1) as nat) <= m,
        ;
    } else {
        let kk = (-e) as nat;
        lemma_pow10_add(1024, kk);
        lemma_pow10_monotone(1024 + kk, (nd - 1) as nat);
        lemma_pow10_positive(kk);
        let t = f64_overflow_threshold();
        assert(t * pow10(kk) <= pow10(1024) * pow10(kk)) by (nonlinear_arith)
            requires
                t < pow10(1024),
        ;
    }
}

/// With `m` of `nd` digits, `m * 10^e` is below `10^288` when `nd + e <= 288`.
proof fn lemma_no_overflow_small(m: nat, nd: nat, e: int)
    requires
        m < pow10(nd),
        nd + e <= 288,
    ensures
        !overflows(m, e),
{
    lemma_threshold_bounds();
    if e >= 0 {
        let en = e as nat;
        lemma_pow10_add(nd, en);
        lemma_pow10_monotone(nd + en, 288);
        lemma_pow10_positive(en);
        assert(m * pow10(en) < pow10(nd) * pow10(en)) by (nonlinear_arith)
            requires
                m < pow10(nd),
                pow10(en) >= 1,
        ;
    } else {
        let kk = (-e) as nat;
        let t = f64_overflow_threshold();
        lemma_pow10_positive(kk);
        if nd <= kk {
            lemma_pow10_monotone(nd, kk);
            assert(t * pow10(kk) >= pow10(kk)) by (nonlinear_arith)
                requires
                    t >= 1,
            ;
        } else {
            let d = (nd - kk) as nat;
            lemma_pow10_add(d, kk);
            lemma_pow10_monotone(d, 288);
            assert(t * pow10(kk) >= pow10(d) * pow10(kk)) by (nonlinear_arith)
                requires
                    t >= pow10(d),
            ;
        }
    }
}

/// With `m` of `nd` digits and `-e >= nd + 1075`, `m * 10^e` rounds to zero.
proof fn lemma_underflow_far(m: nat, nd: nat, e: int)
    requires
        m < pow10(nd),
        -e >= nd + 1075,
    ensures
        underflows(m, e),
{
    let kk = (-e) as nat;
    lemma_pow2n_le_pow10(1075);
    lemma_pow10_add(nd, 1075);
    lemma_pow10_monotone(nd + 1075, kk);
    assert(m * pow2n(1075) <= pow10(nd) * pow10(1075)) by (nonlinear_arith)
        requires
            m < pow10(nd),
            pow2n(1075) <= pow10(1075),
    ;
}

/// With `m` of `nd` digits and `nd - 1 + e >= -300`, `m * 10^e` does not round to zero.
proof fn lemma_no_underflow_near(m: nat, nd: nat, e: int)
    requires
        nd >= 1,
        pow10((nd - 1) as nat) <= m,
        nd - 1 + e >= -300,
        e < 0,
    ensures
        !underflows(m, e),
{
    let kk = (-e) as nat;
    lemma_pow10_positive(300);
    lemma_pow10_le_pow2n(100);
    lemma_pow2n_monotone(1000, 1075);
    lemma_pow2n_add(1000, 75);
    lemma_pow2n_monotone(1, 75);
    reveal_with_fuel(pow2n, 2);
    lemma_pow10_add((nd - 1) as nat, 300);
    lemma_pow10_monotone(kk, (nd - 1 + 300) as nat);
    lemma_pow10_positive((nd - 1) as nat);
    let a = pow10((nd - 1) as nat);
    assert(m * pow2n(1075) > a * pow10(300)) by (nonlinear_arith)
        requires
            m >= a,
            a >= 1,
            pow2n(1075) == pow2n(1000) * pow2n(75),
            pow2n(75) >= 2,
            pow2n(1000) >= pow10(300),
            pow10(300) >= 1,
    {
        assert(pow2n(1075) > pow10(300)) by (nonlinear_arith)
            requires
                pow2n(1075) == pow2n(1000) * pow2n(75),
                pow2n(75) >= 2,
                pow2n(1000) >= pow10(300),
                pow10(300) >= 1,
        ;
        vstd::arithmetic::mul::lemma_mul_inequality(a as int, m as int, pow2n(1075) as int);
        assert(a * pow2n(1075) > a * pow10(300)) by (nonlinear_arith)
            requires
                a >= 1,
                pow2n(1075) > pow10(300),
        ;
    }
    lemma_pow10_positive(300);
}

/// When the exponent was too large to read, the number is far out of range.
proof fn lemma_range_far(m: nat, nd: nat, e: int)
    requires
        nd >= 1,
        pow10((nd - 1) as nat) <= m,
        m < pow10(nd),
        nd <= 0x2000_0000_0000_0000,
        e >= 0x40_0000_0000_0000_0000 - 0x4000_0000_0000_0000 || e <= -0x40_0000_0000_0000_0000,
    ensures
        e >= 0 ==> overflows(m, e),
        e < 0 ==> underflows(m, e) && !overflows(m, e),
{
    if e >= 0 {
        lemma_overflow_big(m, nd, e);
    } else {
        lemma_underflow_far(m, nd, e);
        lemma_no_overflow_small(m, nd, e);
    }
}

} // verus!
