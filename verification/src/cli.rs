//! The command line: its options, its help and its version.

use vstd::prelude::*;
use crate::decimal::{normalize, signed, DecimalValue};
use crate::discounts::discount_values;
use crate::errors::{CliError, CliErrorView};
use crate::matching::texts;
use crate::numeral::{parse_finite, parse_finite_number};
use crate::review::sensitivity_value;
use crate::text::{
    chars_of, concat, has_prefix, join_lines, joined_lines, same_text, starts_with_char,
    string_of_range, string_texts, strip_prefix, trim, trim_bounds, trimmed,
};
use crate::types::{valid_discount, DiscountRate, SensitivityThreshold};

verus! {

/// The name of the tool.
pub const CLI_NAME: &'static str = "invrev";

/// The version of the tool.
pub const CLI_VERSION: &'static str = "0.2.0";

/// What the command line asks for.
#[derive(Debug, Clone, PartialEq)]
pub enum CliOptions {
    Help,
    Version,
    Review(ReviewCliOptions),
}

/// The options of a review, as the command line gives them.
#[derive(Debug, Clone, PartialEq)]
pub struct ReviewCliOptions {
    pub invoice_path: Option<String>,
    pub system_paths: Vec<String>,
    pub discounts: Vec<DiscountRate>,
    pub output_path: Option<String>,
    pub json_path: Option<String>,
    pub sensitivity: Option<SensitivityThreshold>,
}

/// The content of `ReviewCliOptions`.
#[verifier::ext_equal]
pub struct ReviewOptionsView {
    pub invoice_path: Option<Seq<char>>,
    pub system_paths: Seq<Seq<char>>,
    pub discounts: Seq<DecimalValue>,
    pub output_path: Option<Seq<char>>,
    pub json_path: Option<Seq<char>>,
    pub sensitivity: Option<DecimalValue>,
}

/// The content of `CliOptions`.
pub enum CliOptionsView {
    Help,
    Version,
    Review(ReviewOptionsView),
}

/// The text of an optional string.
pub open spec fn opt_view(o: Option<String>) -> Option<Seq<char>> {
    match o {
        Some(s) => Some(s@),
        None => None,
    }
}

impl View for ReviewCliOptions {
    type V = ReviewOptionsView;

    open spec fn view(&self) -> ReviewOptionsView {
        ReviewOptionsView {
            invoice_path: opt_view(self.invoice_path),
            system_paths: texts(self.system_paths@),
            discounts: discount_values(self.discounts@),
            output_path: opt_view(self.output_path),
            json_path: opt_view(self.json_path),
            sensitivity: sensitivity_value(self.sensitivity),
        }
    }
}

impl View for CliOptions {
    type V = CliOptionsView;

    open spec fn view(&self) -> CliOptionsView {
        match self {
            CliOptions::Help => CliOptionsView::Help,
            CliOptions::Version => CliOptionsView::Version,
            CliOptions::Review(o) => CliOptionsView::Review(o@),
        }
    }
}

/// No option given yet.
pub open spec fn no_options() -> ReviewOptionsView {
    ReviewOptionsView {
        invoice_path: None,
        system_paths: Seq::empty(),
        discounts: Seq::empty(),
        output_path: None,
        json_path: None,
        sensitivity: None,
    }
}

/// `value` split at every comma.
pub open spec fn comma_pieces(value: Seq<char>) -> Seq<Seq<char>>
    decreases value.len(),
{
    if value.len() == 0 {
        seq![Seq::empty()]
    } else {
        let p = comma_pieces(value.drop_last());
        if value.last() == ',' {
            p.push(Seq::empty())
        } else {
            p.update(p.len() - 1, p.last().push(value.last()))
        }
    }
}

/// The pieces, trimmed, without the empty ones.
pub open spec fn nonempty_trimmed(pieces: Seq<Seq<char>>) -> Seq<Seq<char>>
    decreases pieces.len(),
{
    if pieces.len() == 0 {
        Seq::empty()
    } else if trimmed(pieces.last()).len() == 0 {
        nonempty_trimmed(pieces.drop_last())
    } else {
        nonempty_trimmed(pieces.drop_last()).push(trimmed(pieces.last()))
    }
}

/// The paths of a compact `--system=a,b,c` value.
pub open spec fn split_paths(value: Seq<char>) -> Seq<Seq<char>> {
    nonempty_trimmed(comma_pieces(value))
}

proof fn lemma_comma_pieces_nonempty(value: Seq<char>)
    ensures
        comma_pieces(value).len() >= 1,
    decreases value.len(),
{
    if value.len() > 0 {
        lemma_comma_pieces_nonempty(value.drop_last());
    }
}

/// The paths of a compact `--system=a,b,c` value: the pieces between commas,
/// trimmed, without the empty ones.
pub fn split_system_paths(value: &str) -> (r: Vec<String>)
    ensures
        texts(r@) == split_paths(value@),
{
    let c = chars_of(value);
    let mut out: Vec<String> = Vec::new();
    let mut piece: Vec<char> = Vec::new();
    let mut i: usize = 0;
    proof {
        assert(c@.take(0) =~= Seq::<char>::empty());
        assert(comma_pieces(c@.take(0)) =~= seq![Seq::<char>::empty()]);
        assert(comma_pieces(c@.take(0)).drop_last() =~= Seq::<Seq<char>>::empty());
    }
    while i < c.len()
        invariant
            i <= c@.len(),
            c@ == value@,
            comma_pieces(c@.take(i as int)).len() >= 1,
            piece@ == comma_pieces(c@.take(i as int)).last(),
            texts(out@) == nonempty_trimmed(comma_pieces(c@.take(i as int)).drop_last()),
        decreases c@.len() - i,
    {
        let ghost p = comma_pieces(c@.take(i as int));
        proof {
            assert(c@.take(i + 1).drop_last() =~= c@.take(i as int));
            assert(c@.take(i + 1).last() == c@[i as int]);
        }
        if c[i] == ',' {
            let (a, b) = trim_bounds(&piece);
            if a < b {
                out.push(string_of_range(&piece, a, b));
            }
            proof {
                assert(comma_pieces(c@.take(i + 1)) == p.push(Seq::empty()));
                assert(p.push(Seq::<char>::empty()).drop_last() =~= p);
                assert(p.drop_last().push(p.last()) =~= p);
                if a < b {
                    assert(texts(out@) =~= nonempty_trimmed(p.drop_last()).push(trimmed(p.last())));
                }
            }
            piece = Vec::new();
        } else {
            piece.push(c[i]);
            proof {
                let q = p.update(p.len() - 1, p.last().push(c@[i as int]));
                assert(comma_pieces(c@.take(i + 1)) == q);
                assert(q.drop_last() =~= p.drop_last());
            }
        }
        i = i + 1;
    }
    proof {
        assert(c@.take(c@.len() as int) =~= c@);
    }
    let ghost p = comma_pieces(value@);
    let (a, b) = trim_bounds(&piece);
    if a < b {
        out.push(string_of_range(&piece, a, b));
    }
    proof {
        assert(p.drop_last().push(p.last()) =~= p);
        if a < b {
            assert(texts(out@) =~= nonempty_trimmed(p.drop_last()).push(trimmed(p.last())));
        }
    }
    out
}

/// The sensitivity that a value gives: a negative number, or the error.
pub open spec fn sensitivity_of(raw: Option<Seq<char>>) -> Result<DecimalValue, CliErrorView> {
    match raw {
        None => Err(CliErrorView::InvalidSensitivity { raw_value: None }),
        Some(r) => {
            let t = trimmed(r);
            if t.len() > 0 && parse_finite(t) is Some && signed(parse_finite(t)->0) < 0 {
                Ok(normalize(parse_finite(t)->0))
            } else {
                Err(CliErrorView::InvalidSensitivity { raw_value: Some(r) })
            }
        },
    }
}

/// The discount that a value gives: a percentage above 0 and below 100, or
/// the error.
pub open spec fn discount_of(raw: Option<Seq<char>>) -> Result<DecimalValue, CliErrorView> {
    match raw {
        None => Err(CliErrorView::InvalidDiscount { raw_value: None }),
        Some(r) => {
            let t = trimmed(r);
            if t.len() == 0 {
                Err(CliErrorView::InvalidDiscount { raw_value: Some(r) })
            } else if parse_finite(t) is Some && valid_discount(parse_finite(t)->0) {
                Ok(normalize(parse_finite(t)->0))
            } else {
                Err(CliErrorView::InvalidDiscount { raw_value: Some(t) })
            }
        },
    }
}

/// Reads the value of `--sensitivity`.
pub fn parse_sensitivity_value(raw_value: Option<&str>) -> (r: Result<SensitivityThreshold, CliError>)
    ensures
        match sensitivity_of(
            match raw_value {
                Some(s) => Some(s@),
                None => None,
            },
        ) {
            Ok(v) => r matches Ok(t) && t@ == v,
            Err(e) => r matches Err(x) && x@ == e,
        },
{
    match raw_value {
        None => Err(CliError::invalid_sensitivity(raw_value)),
        Some(raw) => {
            let t = trim(raw);
            if t.as_str().is_empty() {
                return Err(CliError::invalid_sensitivity(raw_value));
            }
            match parse_finite_number(t.as_str()) {
                None => Err(CliError::invalid_sensitivity(raw_value)),
                Some(v) => {
                    let ghost pv = parse_finite(t@)->0;
                    proof {
                        crate::decimal::lemma_same_number(v@, pv);
                        crate::decimal::lemma_compare_at(v@, pv, crate::decimal::max_scale(v@, pv));
                        crate::decimal::lemma_value_eq_cross(v@, pv);
                        crate::natural::lemma_pow10_positive(v@.scale);
                        crate::natural::lemma_pow10_positive(pv.scale);
                        assert((signed(v@) < 0) == (signed(pv) < 0)) by (nonlinear_arith)
                            requires
                                signed(v@) * crate::natural::pow10(pv.scale) == signed(pv)
                                    * crate::natural::pow10(v@.scale),
                                crate::natural::pow10(pv.scale) >= 1,
                                crate::natural::pow10(v@.scale) >= 1,
                        ;
                    }
                    match SensitivityThreshold::new(v) {
                        Some(threshold) => Ok(threshold),
                        None => Err(CliError::invalid_sensitivity(raw_value)),
                    }
                },
            }
        },
    }
}

/// Reads the value of `--discount`.
pub fn parse_discount_value(raw_value: Option<&str>) -> (r: Result<DiscountRate, CliError>)
    ensures
        match discount_of(
            match raw_value {
                Some(s) => Some(s@),
                None => None,
            },
        ) {
            Ok(v) => r matches Ok(d) && d@ == v,
            Err(e) => r matches Err(x) && x@ == e,
        },
{
    match raw_value {
        None => Err(CliError::invalid_discount(raw_value)),
        Some(raw) => {
            let t = trim(raw);
            if t.as_str().is_empty() {
                return Err(CliError::invalid_discount(raw_value));
            }
            match parse_finite_number(t.as_str()) {
                None => Err(CliError::invalid_discount(Some(t.as_str()))),
                Some(v) => {
                    let ghost pv = parse_finite(t@)->0;
                    proof {
                        crate::decimal::lemma_same_number(v@, pv);
                        lemma_valid_discount_same_number(v@, pv);
                    }
                    match DiscountRate::new(v) {
                        Some(d) => Ok(d),
                        None => Err(CliError::invalid_discount(Some(t.as_str()))),
                    }
                },
            }
        },
    }
}

proof fn lemma_valid_discount_same_number(a: DecimalValue, b: DecimalValue)
    requires
        crate::decimal::value_eq(a, b),
    ensures
        valid_discount(a) == valid_discount(b),
{
    crate::decimal::lemma_value_eq_cross(a, b);
    crate::natural::lemma_pow10_positive(a.scale);
    crate::natural::lemma_pow10_positive(b.scale);
    let pa = crate::natural::pow10(a.scale) as int;
    let pb = crate::natural::pow10(b.scale) as int;
    let x = signed(a);
    let y = signed(b);
    assert((x > 0) == (y > 0)) by (nonlinear_arith)
        requires
            x * pb == y * pa,
            pa >= 1,
            pb >= 1,
    ;
    assert((x < 100 * pa) == (y < 100 * pb)) by (nonlinear_arith)
        requires
            x * pb == y * pa,
            pa >= 1,
            pb >= 1,
    ;
}

/// An option value that can be a path: not empty, and not starting with `-`.
pub open spec fn is_path_value(v: Seq<char>) -> bool {
    v.len() > 0 && v[0] != '-'
}

/// The argument after the one at `i`, if there is one.
pub open spec fn next_arg(args: Seq<Seq<char>>, i: int) -> Option<Seq<char>> {
    if 0 <= i + 1 < args.len() {
        Some(args[i + 1])
    } else {
        None
    }
}

/// The path that follows the option at `i`, if the next argument is one.
pub open spec fn path_after(args: Seq<Seq<char>>, i: int) -> Option<Seq<char>> {
    match next_arg(args, i) {
        Some(v) => if is_path_value(v) {
            Some(v)
        } else {
            None
        },
        None => None,
    }
}

/// The path that follows the option `flag` at `index`.
pub fn next_path_value<'a>(args: &'a [String], index: usize, flag: &str) -> (r: Result<
    &'a str,
    CliError,
>)
    ensures
        match path_after(texts(args@), index as int) {
            Some(p) => r matches Ok(v) && v@ == p,
            None => r matches Err(e) && e@ == (CliErrorView::MissingPathValue { flag: flag@ }),
        },
{
    if index < args.len() && args.len() - index > 1 {
        let v = args[index + 1].as_str();
        proof {
            assert(texts(args@)[index + 1] == v@);
        }
        if !v.is_empty() && !starts_with_char(v, '-') {
            return Ok(v);
        }
    }
    Err(CliError::missing_path_value(flag))
}

/// The path that follows `--system` or `-s` at `index`.
pub fn next_system_path_value<'a>(args: &'a [String], index: usize) -> (r: Result<
    &'a str,
    CliError,
>)
    ensures
        match path_after(texts(args@), index as int) {
            Some(p) => r matches Ok(v) && v@ == p,
            None => r matches Err(e) && e@ == CliErrorView::MissingSystemPathValue,
        },
{
    if index < args.len() && args.len() - index > 1 {
        let v = args[index + 1].as_str();
        proof {
            assert(texts(args@)[index + 1] == v@);
        }
        if !v.is_empty() && !starts_with_char(v, '-') {
            return Ok(v);
        }
    }
    Err(CliError::MissingSystemPathValue)
}

/// What one argument does to the options: the options after it, and whether
/// it took the next argument as its value; or the error it raises.
pub enum StepView {
    Next { options: ReviewOptionsView, took_value: bool },
    Fail(CliErrorView),
}

/// The options after a path option at `i` stored its path with `set`.
pub open spec fn path_step(
    args: Seq<Seq<char>>,
    i: int,
    o: ReviewOptionsView,
    field: int,
) -> StepView {
    match path_after(args, i) {
        Some(p) => StepView::Next {
            options: if field == 0 {
                ReviewOptionsView { invoice_path: Some(p), ..o }
            } else if field == 1 {
                ReviewOptionsView { system_paths: o.system_paths.push(p), ..o }
            } else if field == 2 {
                ReviewOptionsView { output_path: Some(p), ..o }
            } else {
                ReviewOptionsView { json_path: Some(p), ..o }
            },
            took_value: true,
        },
        None => if field == 1 {
            StepView::Fail(CliErrorView::MissingSystemPathValue)
        } else {
            StepView::Fail(CliErrorView::MissingPathValue { flag: args[i] })
        },
    }
}

/// The options after a sensitivity value, or its error.
pub open spec fn sensitivity_step(
    raw: Option<Seq<char>>,
    o: ReviewOptionsView,
    took_value: bool,
) -> StepView {
    match sensitivity_of(raw) {
        Ok(v) => StepView::Next {
            options: ReviewOptionsView { sensitivity: Some(v), ..o },
            took_value,
        },
        Err(e) => StepView::Fail(e),
    }
}

/// The options after a discount value, or its error.
pub open spec fn discount_step(
    raw: Option<Seq<char>>,
    o: ReviewOptionsView,
    took_value: bool,
) -> StepView {
    match discount_of(raw) {
        Ok(v) => StepView::Next {
            options: ReviewOptionsView { discounts: o.discounts.push(v), ..o },
            took_value,
        },
        Err(e) => StepView::Fail(e),
    }
}

/// The options after a compact list of system paths, or its error.
pub open spec fn system_list_step(value: Seq<char>, o: ReviewOptionsView) -> StepView {
    if split_paths(value).len() == 0 {
        StepView::Fail(CliErrorView::MissingSystemPathValue)
    } else {
        StepView::Next {
            options: ReviewOptionsView {
                system_paths: o.system_paths + split_paths(value),
                ..o
            },
            took_value: false,
        }
    }
}

/// What the argument at `i` does to the options `o`.
pub open spec fn step(args: Seq<Seq<char>>, i: int, o: ReviewOptionsView) -> StepView {
    let a = args[i];
    if a == "--invoice"@ || a == "-i"@ {
        path_step(args, i, o, 0)
    } else if a == "--system"@ || a == "-s"@ {
        path_step(args, i, o, 1)
    } else if a == "--out"@ || a == "-o"@ {
        path_step(args, i, o, 2)
    } else if a == "--json"@ {
        path_step(args, i, o, 3)
    } else if a == "--sensitivity"@ {
        sensitivity_step(next_arg(args, i), o, true)
    } else if a == "--discount"@ || a == "-d"@ {
        discount_step(next_arg(args, i), o, true)
    } else if has_prefix(a, "--system="@) {
        system_list_step(a.skip("--system="@.len() as int), o)
    } else if has_prefix(a, "-s="@) {
        system_list_step(a.skip("-s="@.len() as int), o)
    } else if has_prefix(a, "--sensitivity="@) {
        sensitivity_step(Some(a.skip("--sensitivity="@.len() as int)), o, false)
    } else if has_prefix(a, "--discount="@) {
        discount_step(Some(a.skip("--discount="@.len() as int)), o, false)
    } else if has_prefix(a, "-d="@) {
        discount_step(Some(a.skip("-d="@.len() as int)), o, false)
    } else if a.len() > 0 && a[0] == '-' {
        StepView::Fail(CliErrorView::UnknownFlag { argument: a })
    } else {
        StepView::Fail(CliErrorView::UnexpectedPositionalArgument { argument: a })
    }
}

/// The options that the arguments from `i` on give, starting from `o`.
pub open spec fn scan(args: Seq<Seq<char>>, i: int, o: ReviewOptionsView) -> Result<
    ReviewOptionsView,
    CliErrorView,
>
    decreases args.len() - i,
{
    if i < 0 || i >= args.len() {
        Ok(o)
    } else {
        match step(args, i, o) {
            StepView::Next { options, took_value } => scan(
                args,
                i + 1 + (if took_value {
                    1int
                } else {
                    0int
                }),
                options,
            ),
            StepView::Fail(e) => Err(e),
        }
    }
}

/// What the command line asks for: the help when it is empty, the version
/// when any argument asks for it, the help when any asks for it, and a review
/// with the options that the arguments give otherwise.
pub open spec fn parsed_cli(args: Seq<Seq<char>>) -> Result<CliOptionsView, CliErrorView> {
    if args.len() == 0 {
        Ok(CliOptionsView::Help)
    } else if args.contains("--version"@) || args.contains("-v"@) {
        Ok(CliOptionsView::Version)
    } else if args.contains("--help"@) || args.contains("-h"@) {
        Ok(CliOptionsView::Help)
    } else {
        match scan(args, 0, no_options()) {
            Ok(o) => Ok(CliOptionsView::Review(o)),
            Err(e) => Err(e),
        }
    }
}

/// Whether any argument is `a` or `b`.
fn any_arg(args: &Vec<String>, a: &str, b: &str) -> (r: bool)
    ensures
        r == (texts(args@).contains(a@) || texts(args@).contains(b@)),
{
    crate::matching::contains_text(args, a) || crate::matching::contains_text(args, b)
}

/// Appends the texts to the list of paths.
fn extend_paths(paths: &mut Vec<String>, more: Vec<String>)
    ensures
        texts(final(paths)@) == texts(old(paths)@) + texts(more@),
{
    let ghost start = texts(paths@);
    let mut i: usize = 0;
    while i < more.len()
        invariant
            i <= more@.len(),
            texts(paths@) == start + texts(more@).take(i as int),
        decreases more@.len() - i,
    {
        let ghost before = texts(paths@);
        paths.push(more[i].clone());
        proof {
            assert(texts(paths@) =~= before.push(more@[i as int]@));
            assert(texts(more@).take(i + 1) =~= texts(more@).take(i as int).push(more@[i as int]@));
            assert(texts(paths@) =~= start + texts(more@).take(i + 1));
        }
        i = i + 1;
    }
    proof {
        assert(texts(more@).take(more@.len() as int) =~= texts(more@));
    }
}

/// Reads the command line.
#[verifier::rlimit(50)]
pub fn parse_cli_args(args: Vec<String>) -> (r: Result<CliOptions, CliError>)
    ensures
        match parsed_cli(texts(args@)) {
            Ok(v) => r matches Ok(x) && x@ == v,
            Err(e) => r matches Err(x) && x@ == e,
        },
{
    let ghost argv = texts(args@);
    if args.len() == 0 {
        return Ok(CliOptions::Help);
    }
    if any_arg(&args, "--version", "-v") {
        return Ok(CliOptions::Version);
    }
    if any_arg(&args, "--help", "-h") {
        return Ok(CliOptions::Help);
    }
    let mut options = ReviewCliOptions {
        invoice_path: None,
        system_paths: Vec::new(),
        discounts: Vec::new(),
        output_path: None,
        json_path: None,
        sensitivity: None,
    };
    proof {
        assert(options@ =~= no_options());
    }
    let mut index: usize = 0;
    while index < args.len()
        invariant
            index <= args@.len(),
            argv == texts(args@),
            scan(argv, 0, no_options()) == scan(argv, index as int, options@),
            argv.len() > 0,
            !(argv.contains("--version"@) || argv.contains("-v"@)),
            !(argv.contains("--help"@) || argv.contains("-h"@)),
        decreases args@.len() - index,
    {
        let a = args[index].as_str();
        proof {
            assert(argv[index as int] == a@);
        }
        let ghost o = options@;
        if same_text(a, "--invoice") || same_text(a, "-i") {
            let p = match next_path_value(args.as_slice(), index, a) {
                Ok(x) => x,
                Err(e) => {
                    proof {
                        assert(path_after(argv, index as int) is None);
                        assert(step(argv, index as int, o) == path_step(argv, index as int, o, 0));
                        assert(scan(argv, index as int, o) == Err::<ReviewOptionsView, CliErrorView>(e@));
                    }
                    return Err(e);
                },
            };
            options.invoice_path = Some(p.to_owned());
            proof {
                assert(options@ =~= ReviewOptionsView { invoice_path: Some(p@), ..o });
            }
            index = index + 2;
        } else if same_text(a, "--system") || same_text(a, "-s") {
            let p = match next_system_path_value(args.as_slice(), index) {
                Ok(x) => x,
                Err(e) => {
                    proof {
                        assert(path_after(argv, index as int) is None);
                        assert(step(argv, index as int, o) == path_step(argv, index as int, o, 1));
                        assert(scan(argv, index as int, o) == Err::<ReviewOptionsView, CliErrorView>(e@));
                    }
                    return Err(e);
                },
            };
            options.system_paths.push(p.to_owned());
            proof {
                assert(options@ =~= ReviewOptionsView { system_paths: o.system_paths.push(p@), ..o });
            }
            index = index + 2;
        } else if same_text(a, "--out") || same_text(a, "-o") {
            let p = match next_path_value(args.as_slice(), index, a) {
                Ok(x) => x,
                Err(e) => {
                    return Err(e);
                },
            };
            options.output_path = Some(p.to_owned());
            proof {
                assert(options@ =~= ReviewOptionsView { output_path: Some(p@), ..o });
            }
            index = index + 2;
        } else if same_text(a, "--json") {
            let p = match next_path_value(args.as_slice(), index, a) {
                Ok(x) => x,
                Err(e) => {
                    return Err(e);
                },
            };
            options.json_path = Some(p.to_owned());
            proof {
                assert(options@ =~= ReviewOptionsView { json_path: Some(p@), ..o });
            }
            index = index + 2;
        } else if same_text(a, "--sensitivity") {
            let value = if args.len() - index > 1 {
                Some(args[index + 1].as_str())
            } else {
                None
            };
            proof {
                if args.len() - index > 1 {
                    assert(argv[index + 1] == args@[index + 1]@);
                }
            }
            let t = match parse_sensitivity_value(value) {
                Ok(x) => x,
                Err(e) => {
                    return Err(e);
                },
            };
            options.sensitivity = Some(t);
            proof {
                assert(options@ =~= ReviewOptionsView { sensitivity: Some(t@), ..o });
            }
            index = if args.len() - index > 1 {
                index + 2
            } else {
                args.len()
            };
        } else if same_text(a, "--discount") || same_text(a, "-d") {
            let value = if args.len() - index > 1 {
                Some(args[index + 1].as_str())
            } else {
                None
            };
            proof {
                if args.len() - index > 1 {
                    assert(argv[index + 1] == args@[index + 1]@);
                }
            }
            let d = match parse_discount_value(value) {
                Ok(x) => x,
                Err(e) => {
                    return Err(e);
                },
            };
            let ghost dv = d@;
            options.discounts.push(d);
            proof {
                assert(discount_values(options.discounts@) =~= o.discounts.push(dv));
                assert(options@ =~= ReviewOptionsView { discounts: o.discounts.push(dv), ..o });
            }
            index = if args.len() - index > 1 {
                index + 2
            } else {
                args.len()
            };
        } else {
            let system_list = match strip_prefix(a, "--system=") {
                Some(v) => Some(v),
                None => strip_prefix(a, "-s="),
            };
            match system_list {
                Some(v) => {
                    let paths = split_system_paths(v.as_str());
                    if paths.len() == 0 {
                        return Err(CliError::MissingSystemPathValue);
                    }
                    extend_paths(&mut options.system_paths, paths);
                    proof {
                        assert(options@ =~= ReviewOptionsView {
                            system_paths: o.system_paths + split_paths(v@),
                            ..o
                        });
                    }
                    index = index + 1;
                },
                None => {
                    match strip_prefix(a, "--sensitivity=") {
                        Some(v) => {
                            let t = match parse_sensitivity_value(Some(v.as_str())) {
                                Ok(x) => x,
                                Err(e) => {
                                    return Err(e);
                                },
                            };
                            options.sensitivity = Some(t);
                            proof {
                                assert(options@ =~= ReviewOptionsView { sensitivity: Some(t@), ..o });
                            }
                            index = index + 1;
                        },
                        None => {
                            let discount_text = match strip_prefix(a, "--discount=") {
                                Some(v) => Some(v),
                                None => strip_prefix(a, "-d="),
                            };
                            match discount_text {
                                Some(v) => {
                                    let d = match parse_discount_value(Some(v.as_str())) {
                                        Ok(x) => x,
                                        Err(e) => {
                                            return Err(e);
                                        },
                                    };
                                    let ghost dv = d@;
                                    options.discounts.push(d);
                                    proof {
                                        assert(discount_values(options.discounts@) =~= o.discounts.push(dv));
                                        assert(options@ =~= ReviewOptionsView {
                                            discounts: o.discounts.push(dv),
                                            ..o
                                        });
                                    }
                                    index = index + 1;
                                },
                                None => {
                                    if starts_with_char(a, '-') {
                                        return Err(CliError::UnknownFlag { argument: a.to_owned() });
                                    }
                                    return Err(
                                        CliError::UnexpectedPositionalArgument { argument: a.to_owned() },
                                    );
                                },
                            }
                        },
                    }
                },
            }
        }
    }
    Ok(CliOptions::Review(options))
}

/// The name and version of the tool.
pub open spec fn version_text() -> Seq<char> {
    CLI_NAME@ + " "@ + CLI_VERSION@
}

/// The name and version of the tool, as `--version` prints them.
pub fn build_version_message() -> (r: String)
    ensures
        r@ == version_text(),
{
    let a = concat(CLI_NAME, " ");
    concat(a.as_str(), CLI_VERSION)
}

/// The lines of the help.
pub open spec fn help_lines() -> Seq<Seq<char>> {
    seq![
        version_text(),
        ""@,
        "Uso:"@,
        "  "@ + CLI_NAME@ + " --invoice ./47088.xls --system ./EAG.xlsx"@,
        "  "@ + CLI_NAME@ + " --invoice ./47088.xls --system ./EAG.xlsx --system ./ACC.xlsx"@,
        "  "@ + CLI_NAME@ + " --invoice ./47088.xls --system ./EAG.xlsx --discount 19 --discount 12"@,
        "  "@ + CLI_NAME@ + " --invoice ./47088.xls --system ./EAG.xlsx --sensitivity -1"@,
        "  "@ + CLI_NAME@ + " -i ./47088.xls -s ./EAG.xlsx -o ./reporte.txt --json ./reporte.json"@,
        ""@,
        "Desarrollo:"@,
        "  cargo run -- -i ./47088.xls -s ./EAG.xlsx"@,
        ""@,
        "Opciones:"@,
        "  -i, --invoice <ruta>    Archivo principal de factura"@,
        "  -s, --system <ruta>     Archivo del sistema. Puede repetirse"@,
        "      --system=a,b,c      Variante compacta separada por comas"@,
        "  -d, --discount <n>      Descuento porcentual. Puede repetirse"@,
        "  -o, --out <ruta>        Exporta el reporte en texto"@,
        "      --json <ruta>       Exporta el reporte en JSON"@,
        "      --sensitivity <n>   Oculta diferencias en el rango (n, 0] si n es negativo"@,
        "  -v, --version          Muestra la versión actual"@,
        "  -h, --help              Muestra esta ayuda"@,
        ""@,
        "Reglas fijas:"@,
        "  - Factura: clave en columna C, precio en columna E"@,
        "  - Sistema: clave en columna A, precio en columna E"@,
        "  - Fórmula de variación: (precio_usado / precio_sistema) * 100 - 100"@
    ]
}

/// `"  "`, the name of the tool and `rest`.
fn usage_line(rest: &str) -> (r: String)
    ensures
        r@ == "  "@ + CLI_NAME@ + rest@,
{
    let a = concat("  ", CLI_NAME);
    concat(a.as_str(), rest)
}

/// The help of the tool.
pub fn build_help_message() -> (r: String)
    ensures
        r@ == joined_lines(help_lines()),
{
    let mut lines: Vec<String> = Vec::new();
    lines.push(build_version_message());
    lines.push("".to_owned());
    lines.push("Uso:".to_owned());
    lines.push(usage_line(" --invoice ./47088.xls --system ./EAG.xlsx"));
    lines.push(usage_line(" --invoice ./47088.xls --system ./EAG.xlsx --system ./ACC.xlsx"));
    lines.push(
        usage_line(" --invoice ./47088.xls --system ./EAG.xlsx --discount 19 --discount 12"),
    );
    lines.push(usage_line(" --invoice ./47088.xls --system ./EAG.xlsx --sensitivity -1"));
    lines.push(
        usage_line(" -i ./47088.xls -s ./EAG.xlsx -o ./reporte.txt --json ./reporte.json"),
    );
    lines.push("".to_owned());
    lines.push("Desarrollo:".to_owned());
    lines.push("  cargo run -- -i ./47088.xls -s ./EAG.xlsx".to_owned());
    lines.push("".to_owned());
    lines.push("Opciones:".to_owned());
    lines.push("  -i, --invoice <ruta>    Archivo principal de factura".to_owned());
    lines.push("  -s, --system <ruta>     Archivo del sistema. Puede repetirse".to_owned());
    lines.push("      --system=a,b,c      Variante compacta separada por comas".to_owned());
    lines.push("  -d, --discount <n>      Descuento porcentual. Puede repetirse".to_owned());
    lines.push("  -o, --out <ruta>        Exporta el reporte en texto".to_owned());
    lines.push("      --json <ruta>       Exporta el reporte en JSON".to_owned());
    lines.push(
        "      --sensitivity <n>   Oculta diferencias en el rango (n, 0] si n es negativo".to_owned(),
    );
    lines.push("  -v, --version          Muestra la versión actual".to_owned());
    lines.push("  -h, --help              Muestra esta ayuda".to_owned());
    lines.push("".to_owned());
    lines.push("Reglas fijas:".to_owned());
    lines.push("  - Factura: clave en columna C, precio en columna E".to_owned());
    lines.push("  - Sistema: clave en columna A, precio en columna E".to_owned());
    lines.push(
        "  - Fórmula de variación: (precio_usado / precio_sistema) * 100 - 100".to_owned(),
    );
    assert(string_texts(lines@) =~= help_lines());
    join_lines(&lines)
}

/// `--version` or `-v` anywhere on the command line asks for the version,
/// whatever else is there; an empty command line asks for the help.
pub proof fn lemma_version_wins(args: Seq<Seq<char>>)
    ensures
        args.contains("--version"@) || args.contains("-v"@) ==> parsed_cli(args)
            == Ok::<CliOptionsView, CliErrorView>(CliOptionsView::Version),
        args.len() == 0 ==> parsed_cli(args) == Ok::<CliOptionsView, CliErrorView>(
            CliOptionsView::Help,
        ),
{
    if args.contains("--version"@) || args.contains("-v"@) {
        assert(args.len() > 0);
    }
}

/// `--out p` and `-o p` both store `p` as the path of the text report and
/// leave every other option as it was, the JSON report's path included;
/// `--json p` stores `p` as the JSON report's path and leaves the text
/// report's path as it was. Each takes `p` as its value.
pub proof fn lemma_report_path_flags(args: Seq<Seq<char>>, i: int, o: ReviewOptionsView)
    requires
        0 <= i,
        i + 1 < args.len(),
        is_path_value(args[i + 1]),
    ensures
        args[i] == "--out"@ || args[i] == "-o"@ ==> step(args, i, o) == (StepView::Next {
            options: ReviewOptionsView { output_path: Some(args[i + 1]), ..o },
            took_value: true,
        }),
        args[i] == "--json"@ ==> step(args, i, o) == (StepView::Next {
            options: ReviewOptionsView { json_path: Some(args[i + 1]), ..o },
            took_value: true,
        }),
{
    reveal_strlit("--invoice");
    reveal_strlit("-i");
    reveal_strlit("--system");
    reveal_strlit("-s");
    reveal_strlit("--out");
    reveal_strlit("-o");
    reveal_strlit("--json");
    assert(path_after(args, i) == Some(args[i + 1]));
    assert("-o"@[1] != "-i"@[1]);
    assert("-o"@[1] != "-s"@[1]);
    assert("--out"@[2] != "--system"@[2]);
    assert("--json"@[2] != "--system"@[2]);
    assert("--json"@[2] != "--out"@[2]);
}

/// A command line that names the invoice, one system file and the text
/// report, with `--out` or `-o`, asks for a review of that invoice against
/// that file with the text report written to that path, no JSON report, no
/// discount and no sensitivity.
pub proof fn lemma_text_report_command_line(
    invoice: Seq<char>,
    system: Seq<char>,
    flag: Seq<char>,
    out: Seq<char>,
)
    requires
        is_path_value(invoice),
        is_path_value(system),
        is_path_value(out),
        flag == "--out"@ || flag == "-o"@,
    ensures
        parsed_cli(seq!["--invoice"@, invoice, "--system"@, system, flag, out]) == Ok::<
            CliOptionsView,
            CliErrorView,
        >(
            CliOptionsView::Review(
                ReviewOptionsView {
                    invoice_path: Some(invoice),
                    system_paths: seq![system],
                    discounts: Seq::empty(),
                    output_path: Some(out),
                    json_path: None,
                    sensitivity: None,
                },
            ),
        ),
{
    let args = seq!["--invoice"@, invoice, "--system"@, system, flag, out];
    reveal_strlit("--invoice");
    reveal_strlit("-i");
    reveal_strlit("--system");
    reveal_strlit("-s");
    reveal_strlit("--out");
    reveal_strlit("-o");
    reveal_strlit("--version");
    reveal_strlit("-v");
    reveal_strlit("--help");
    reveal_strlit("-h");
    assert("--invoice"@[2] != "--version"@[2]);
    assert("--invoice"@[2] != "--help"@[2]);
    assert("--system"@[2] != "--version"@[2]);
    assert("--system"@[2] != "--help"@[2]);
    assert("--out"@[2] != "--version"@[2]);
    assert("--out"@[2] != "--help"@[2]);
    assert("-o"@[1] != "-v"@[1]);
    assert("-o"@[1] != "-h"@[1]);
    assert forall|w: Seq<char>|
        w == "--version"@ || w == "-v"@ || w == "--help"@ || w == "-h"@ implies !args.contains(
        w) by {
        assert forall|k: int| 0 <= k < args.len() implies args[k] != w by {
            assert(w[0] == '-');
            if k == 1 || k == 3 || k == 5 {
                assert(args[k][0] != '-');
            }
        }
    }
    let o0 = no_options();
    let o1 = ReviewOptionsView { invoice_path: Some(invoice), ..o0 };
    let o2 = ReviewOptionsView { system_paths: o1.system_paths.push(system), ..o1 };
    let o3 = ReviewOptionsView { output_path: Some(out), ..o2 };
    assert(path_after(args, 0) == Some(invoice));
    assert(path_after(args, 2) == Some(system));
    lemma_report_path_flags(args, 4, o2);
    assert(step(args, 0, o0) == (StepView::Next { options: o1, took_value: true }));
    assert(step(args, 2, o1) == (StepView::Next { options: o2, took_value: true }));
    assert(scan(args, 6, o3) == Ok::<ReviewOptionsView, CliErrorView>(o3));
    assert(scan(args, 4, o2) == scan(args, 6, o3));
    assert(scan(args, 2, o1) == scan(args, 4, o2));
    assert(scan(args, 0, o0) == scan(args, 2, o1));
    assert(o2.system_paths =~= seq![system]);
}

} // verus!
