//! Character-level text helpers.

use vstd::prelude::*;

verus! {

/// A `String` holding exactly the given characters.
///
/// Trusted: `Iterator::collect` of `char`s into a `String` appends each
/// character in order.
#[verifier::external_body]
pub(crate) fn string_from_chars(chars: &Vec<char>) -> (r: String)
    ensures
        r@ == chars@,
{
    chars.iter().collect()
}

/// The characters of a string slice, in order.
///
/// Trusted: `str::chars` yields the characters of the slice in order, and
/// `collect` keeps them; a `Vec` never holds more than `isize::MAX` bytes,
/// which bounds the number of 4-byte `char`s.
#[verifier::external_body]
pub(crate) fn chars_of(s: &str) -> (r: Vec<char>)
    ensures
        r@ == s@,
        r@.len() * 4 <= isize::MAX,
{
    s.chars().collect()
}

/// The Unicode `White_Space` characters, which `char::is_whitespace` and
/// `str::trim` recognise.
pub open spec fn is_white_space(c: char) -> bool {
    let u = c as u32;
    (0x09 <= u && u <= 0x0d) || u == 0x20 || u == 0x85 || u == 0xa0 || u == 0x1680 || (0x2000
        <= u && u <= 0x200a) || u == 0x2028 || u == 0x2029 || u == 0x202f || u == 0x205f || u
        == 0x3000
}

pub fn is_white_space_exec(c: char) -> (r: bool)
    ensures
        r == is_white_space(c),
{
    let u = c as u32;
    (0x09 <= u && u <= 0x0d) || u == 0x20 || u == 0x85 || u == 0xa0 || u == 0x1680 || (0x2000
        <= u && u <= 0x200a) || u == 0x2028 || u == 0x2029 || u == 0x202f || u == 0x205f || u
        == 0x3000
}

/// `s` without its leading white space.
pub open spec fn trim_start(s: Seq<char>) -> Seq<char>
    decreases s.len(),
{
    if s.len() > 0 && is_white_space(s[0]) {
        trim_start(s.drop_first())
    } else {
        s
    }
}

/// `s` without its trailing white space.
pub open spec fn trim_end(s: Seq<char>) -> Seq<char>
    decreases s.len(),
{
    if s.len() > 0 && is_white_space(s.last()) {
        trim_end(s.drop_last())
    } else {
        s
    }
}

/// `s` without leading and trailing white space, as `str::trim` gives it.
pub open spec fn trimmed(s: Seq<char>) -> Seq<char> {
    trim_end(trim_start(s))
}

proof fn lemma_trim_start_at(s: Seq<char>, k: int)
    requires
        0 <= k <= s.len(),
        forall|t: int| 0 <= t < k ==> is_white_space(#[trigger] s[t]),
        k == s.len() || !is_white_space(s[k]),
    ensures
        trim_start(s) == s.skip(k),
    decreases k,
{
    if k == 0 {
        assert(s.skip(0) =~= s);
    } else {
        assert forall|t: int| 0 <= t < k - 1 implies is_white_space(#[trigger] s.drop_first()[t]) by {
            assert(s.drop_first()[t] == s[t + 1]);
        }
        if k < s.len() {
            assert(s.drop_first()[k - 1] == s[k]);
        }
        lemma_trim_start_at(s.drop_first(), k - 1);
        assert(s.drop_first().skip(k - 1) =~= s.skip(k));
    }
}

proof fn lemma_trim_end_at(s: Seq<char>, k: int)
    requires
        0 <= k <= s.len(),
        forall|t: int| k <= t < s.len() ==> is_white_space(#[trigger] s[t]),
        k == 0 || !is_white_space(s[k - 1]),
    ensures
        trim_end(s) == s.take(k),
    decreases s.len() - k,
{
    if k == s.len() {
        assert(s.take(k) =~= s);
    } else {
        assert(is_white_space(s[s.len() - 1]));
        let d = s.drop_last();
        assert forall|t: int| k <= t < d.len() implies is_white_space(#[trigger] d[t]) by {
            assert(d[t] == s[t]);
        }
        if k > 0 {
            assert(d[k - 1] == s[k - 1]);
        }
        lemma_trim_end_at(d, k);
        assert(d.take(k) =~= s.take(k));
    }
}

proof fn lemma_trim_start_head(s: Seq<char>)
    ensures
        trim_start(s).len() == 0 || !is_white_space(trim_start(s)[0]),
    decreases s.len(),
{
    if s.len() > 0 && is_white_space(s[0]) {
        lemma_trim_start_head(s.drop_first());
    }
}

proof fn lemma_trim_end_prefix(s: Seq<char>) -> (k: int)
    ensures
        0 <= k <= s.len(),
        trim_end(s) == s.take(k),
        k == 0 || !is_white_space(s[k - 1]),
    decreases s.len(),
{
    if s.len() > 0 && is_white_space(s.last()) {
        let d = s.drop_last();
        let k = lemma_trim_end_prefix(d);
        assert(d.take(k) =~= s.take(k));
        if k > 0 {
            assert(d[k - 1] == s[k - 1]);
        }
        k
    } else {
        assert(s.take(s.len() as int) =~= s);
        s.len() as int
    }
}

/// Trimmed text has nothing more to trim.
pub proof fn lemma_trimmed_twice(t: Seq<char>)
    ensures
        trimmed(trimmed(t)) == trimmed(t),
{
    let r = trim_start(t);
    lemma_trim_start_head(t);
    let k = lemma_trim_end_prefix(r);
    let u = trimmed(t);
    assert(u == r.take(k));
    if u.len() > 0 {
        assert(u[0] == r[0]);
        assert(u.last() == r[k - 1]);
        assert(trim_start(u) == u);
        assert(trim_end(u) == u);
    } else {
        assert(trim_start(u) == u);
        assert(trim_end(u) == u);
    }
}

/// The bounds `[a, b)` of the trimmed part of `c`.
pub fn trim_bounds(c: &Vec<char>) -> (r: (usize, usize))
    ensures
        r.0 <= r.1 <= c.len(),
        c@.subrange(r.0 as int, r.1 as int) == trimmed(c@),
{
    let n = c.len();
    let mut a: usize = 0;
    while a < n && is_white_space_exec(c[a])
        invariant
            a <= n,
            n == c.len(),
            forall|t: int| 0 <= t < a ==> is_white_space(#[trigger] c@[t]),
        decreases n - a,
    {
        a = a + 1;
    }
    let mut b: usize = n;
    while b > a && is_white_space_exec(c[b - 1])
        invariant
            a <= b <= n,
            n == c.len(),
            forall|t: int| b <= t < n ==> is_white_space(#[trigger] c@[t]),
        decreases b,
    {
        b = b - 1;
    }
    proof {
        lemma_trim_start_at(c@, a as int);
        let s = c@.skip(a as int);
        assert forall|t: int| (b - a) <= t < s.len() implies is_white_space(#[trigger] s[t]) by {
            assert(s[t] == c@[t + a]);
        }
        if b > a {
            assert(s[b - a - 1] == c@[b - 1]);
        }
        lemma_trim_end_at(s, (b - a) as int);
        assert(s.take((b - a) as int) =~= c@.subrange(a as int, b as int));
    }
    (a, b)
}

/// `c[a..b]` as a `String`.
pub fn string_of_range(c: &Vec<char>, a: usize, b: usize) -> (r: String)
    requires
        a <= b <= c.len(),
    ensures
        r@ == c@.subrange(a as int, b as int),
{
    let mut out: Vec<char> = Vec::new();
    let mut i: usize = a;
    while i < b
        invariant
            a <= i <= b,
            b <= c.len(),
            out@ == c@.subrange(a as int, i as int),
        decreases b - i,
    {
        out.push(c[i]);
        i = i + 1;
        assert(out@ =~= c@.subrange(a as int, i as int));
    }
    string_from_chars(&out)
}

/// `s` without leading and trailing white space.
pub fn trim(s: &str) -> (r: String)
    ensures
        r@ == trimmed(s@),
{
    let c = chars_of(s);
    let (a, b) = trim_bounds(&c);
    string_of_range(&c, a, b)
}

/// Whether two texts are equal.
pub fn same_text(a: &str, b: &str) -> (r: bool)
    ensures
        r == (a@ == b@),
{
    let x = chars_of(a);
    let y = chars_of(b);
    if x.len() != y.len() {
        return false;
    }
    let mut i: usize = 0;
    while i < x.len()
        invariant
            i <= x.len(),
            x.len() == y.len(),
            x@ == a@,
            y@ == b@,
            forall|t: int| 0 <= t < i ==> x@[t] == y@[t],
        decreases x.len() - i,
    {
        if x[i] != y[i] {
            assert(x@[i as int] != y@[i as int]);
            return false;
        }
        i = i + 1;
    }
    assert(x@ =~= y@);
    true
}

/// `s` starts with `p`.
pub open spec fn has_prefix(s: Seq<char>, p: Seq<char>) -> bool {
    p.len() <= s.len() && s.take(p.len() as int) == p
}

/// What follows the prefix `p` in `s`, when `s` starts with it.
pub fn strip_prefix(s: &str, p: &str) -> (r: Option<String>)
    ensures
        has_prefix(s@, p@) ==> r is Some && r->0@ == s@.skip(p@.len() as int),
        !has_prefix(s@, p@) ==> r is None,
{
    let x = chars_of(s);
    let y = chars_of(p);
    if y.len() > x.len() {
        return None;
    }
    let mut i: usize = 0;
    while i < y.len()
        invariant
            i <= y.len(),
            y.len() <= x.len(),
            x@ == s@,
            y@ == p@,
            forall|t: int| 0 <= t < i ==> x@[t] == y@[t],
        decreases y.len() - i,
    {
        if x[i] != y[i] {
            proof {
                assert(x@.take(y@.len() as int)[i as int] != y@[i as int]);
                assert(x@.take(y@.len() as int) != y@);
            }
            return None;
        }
        i = i + 1;
    }
    assert(x@.take(y@.len() as int) =~= y@);
    Some(string_of_range(&x, y.len(), x.len()))
}

/// `s` starts with the character `c`.
pub fn starts_with_char(s: &str, c: char) -> (r: bool)
    ensures
        r == (s@.len() > 0 && s@[0] == c),
{
    let x = chars_of(s);
    x.len() > 0 && x[0] == c
}

/// The concatenation of two texts.
pub fn concat(a: &str, b: &str) -> (r: String)
    ensures
        r@ == a@ + b@,
{
    let mut s = String::new();
    s.append(a);
    s.append(b);
    assert(s@ =~= a@ + b@);
    s
}

/// The lines joined with a line feed between each two.
pub open spec fn joined_lines(lines: Seq<Seq<char>>) -> Seq<char>
    decreases lines.len(),
{
    if lines.len() == 0 {
        Seq::empty()
    } else if lines.len() == 1 {
        lines[0]
    } else {
        joined_lines(lines.drop_last()) + seq!['\n'] + lines.last()
    }
}

/// The texts of a list of strings.
pub open spec fn string_texts(s: Seq<String>) -> Seq<Seq<char>> {
    s.map_values(|t: String| t@)
}

/// The lines joined with a line feed between each two.
pub fn join_lines(lines: &Vec<String>) -> (r: String)
    ensures
        r@ == joined_lines(string_texts(lines@)),
{
    let ghost ls = string_texts(lines@);
    let mut out: Vec<char> = Vec::new();
    let mut i: usize = 0;
    while i < lines.len()
        invariant
            i <= lines@.len(),
            ls == string_texts(lines@),
            out@ == joined_lines(ls.take(i as int)),
        decreases lines@.len() - i,
    {
        let line = chars_of(lines[i].as_str());
        let ghost before = out@;
        if i > 0 {
            out.push('\n');
        }
        let mut k: usize = 0;
        while k < line.len()
            invariant
                k <= line@.len(),
                out@ == before + (if i > 0 {
                    seq!['\n']
                } else {
                    Seq::empty()
                }) + line@.take(k as int),
            decreases line@.len() - k,
        {
            out.push(line[k]);
            k = k + 1;
            assert(out@ =~= before + (if i > 0 {
                seq!['\n']
            } else {
                Seq::empty()
            }) + line@.take(k as int));
        }
        proof {
            assert(line@.take(line@.len() as int) =~= line@);
            assert(ls.take(i + 1).drop_last() =~= ls.take(i as int));
            assert(ls[i as int] == lines@[i as int]@);
            if i == 0 {
                assert(ls.take(1).len() == 1);
                assert(out@ =~= ls.take(1)[0]);
            } else {
                assert(out@ =~= joined_lines(ls.take(i as int)) + seq!['\n'] + ls.take(i + 1).last());
            }
        }
        i = i + 1;
    }
    proof {
        assert(ls.take(ls.len() as int) =~= ls);
    }
    string_from_chars(&out)
}

} // verus!
