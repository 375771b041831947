//! The text report of a review.

use vstd::prelude::*;
use crate::decimal::{decimal_text, normalize, rounded_value, Decimal, DecimalValue};
use crate::matching::texts;
use crate::number::{figure_text, format_figure, format_number, round_number};
use crate::review::{
    key_texts, numbers, MismatchView, MultipleMatch, MultipleMatchView, PriceMismatch,
    ReviewReport,
};
use crate::text::{
    chars_of, concat, join_lines, joined_lines, string_of_range, string_texts,
};

verus! {

/// Where the last `/` of `p` stands; -1 when there is none.
pub open spec fn last_slash(p: Seq<char>) -> int
    decreases p.len(),
{
    if p.len() == 0 {
        -1
    } else if p.last() == '/' {
        p.len() - 1
    } else {
        last_slash(p.drop_last())
    }
}

proof fn lemma_last_slash_range(p: Seq<char>)
    ensures
        -1 <= last_slash(p) < p.len(),
    decreases p.len(),
{
    if p.len() > 0 && p.last() != '/' {
        lemma_last_slash_range(p.drop_last());
    }
}

proof fn lemma_last_slash_at(p: Seq<char>, j: int)
    requires
        0 <= j <= p.len(),
        forall|t: int| j <= t < p.len() ==> p[t] != '/',
        j == 0 || p[j - 1] == '/',
    ensures
        last_slash(p) == j - 1,
    decreases p.len(),
{
    if p.len() > j {
        let d = p.drop_last();
        assert forall|t: int| j <= t < d.len() implies d[t] != '/' by {
            assert(d[t] == p[t]);
        }
        if j > 0 {
            assert(d[j - 1] == p[j - 1]);
        }
        lemma_last_slash_at(d, j);
    }
}

/// The last component of a path, as `Path::file_name` gives it: the part
/// after the last `/`, skipping empty and `.` parts at the end; nothing when
/// that part is `..` or when there is no such part.
pub open spec fn file_name(p: Seq<char>) -> Option<Seq<char>>
    decreases p.len(),
{
    let j = last_slash(p);
    let part = p.skip(j + 1);
    if j < -1 || j >= p.len() {
        None
    } else if part.len() == 0 || part == seq!['.'] {
        if j < 0 {
            None
        } else {
            file_name(p.take(j))
        }
    } else if part == seq!['.', '.'] {
        None
    } else {
        Some(part)
    }
}

/// The name shown for a path: its last component, or the whole path when it
/// has none.
pub open spec fn basename_text(p: Seq<char>) -> Seq<char> {
    match file_name(p) {
        Some(n) => n,
        None => p,
    }
}

/// The name shown for a path: its last component, or the whole path when it
/// has none.
pub fn basename(path: &str) -> (r: String)
    ensures
        r@ == basename_text(path@),
{
    let c = chars_of(path);
    let mut end: usize = c.len();
    proof {
        assert(c@.take(end as int) =~= c@);
    }
    loop
        invariant
            end <= c@.len(),
            c@ == path@,
            file_name(path@) == file_name(c@.take(end as int)),
        decreases end,
    {
        let ghost p = c@.take(end as int);
        let mut j: usize = end;
        while j > 0 && c[j - 1] != '/'
            invariant
                j <= end <= c@.len(),
                forall|t: int| j <= t < end ==> c@[t] != '/',
            decreases j,
        {
            j = j - 1;
        }
        proof {
            assert forall|t: int| j <= t < p.len() implies p[t] != '/' by {
                assert(p[t] == c@[t]);
            }
            if j > 0 {
                assert(p[j - 1] == c@[j - 1]);
            }
            lemma_last_slash_at(p, j as int);
            assert(p.skip(j as int) =~= c@.subrange(j as int, end as int));
        }
        let len = end - j;
        let is_dot = len == 1 && c[j] == '.';
        let is_dot_dot = len == 2 && c[j] == '.' && c[j + 1] == '.';
        proof {
            let part = c@.subrange(j as int, end as int);
            if len == 1 {
                assert(part[0] == c@[j as int]);
                assert(is_dot == (part =~= seq!['.']));
            } else {
                assert(part.len() != 1);
                assert(!(part =~= seq!['.']));
            }
            if len == 2 {
                assert(part[0] == c@[j as int]);
                assert(part[1] == c@[j + 1]);
                assert(is_dot_dot == (part =~= seq!['.', '.']));
            } else {
                assert(part.len() != 2);
                assert(!(part =~= seq!['.', '.']));
            }
        }
        if len == 0 || is_dot {
            if j == 0 {
                return path.to_owned();
            }
            proof {
                assert(p.take(j - 1) =~= c@.take(j - 1));
            }
            end = j - 1;
        } else if is_dot_dot {
            return path.to_owned();
        } else {
            return string_of_range(&c, j, end);
        }
    }
}

/// The texts joined with `, ` between each two.
pub open spec fn comma_joined(items: Seq<Seq<char>>) -> Seq<char>
    decreases items.len(),
{
    if items.len() == 0 {
        Seq::empty()
    } else if items.len() == 1 {
        items[0]
    } else {
        comma_joined(items.drop_last()) + ", "@ + items.last()
    }
}

/// The texts joined with `, ` between each two.
pub fn join_with_commas(items: &Vec<String>) -> (r: String)
    ensures
        r@ == comma_joined(string_texts(items@)),
{
    let ghost ts = string_texts(items@);
    let mut out = String::new();
    let mut i: usize = 0;
    while i < items.len()
        invariant
            i <= items@.len(),
            ts == string_texts(items@),
            out@ == comma_joined(ts.take(i as int)),
        decreases items@.len() - i,
    {
        proof {
            assert(ts.take(i + 1).drop_last() =~= ts.take(i as int));
            assert(ts[i as int] == items@[i as int]@);
        }
        if i == 0 {
            out = items[i].clone();
            proof {
                assert(ts.take(1).len() == 1);
            }
        } else {
            let a = concat(out.as_str(), ", ");
            out = concat(a.as_str(), items[i].as_str());
        }
        i = i + 1;
    }
    proof {
        assert(ts.take(ts.len() as int) =~= ts);
    }
    out
}

/// The decimal text of a natural number.
pub open spec fn nat_text(n: nat) -> Seq<char> {
    decimal_text(DecimalValue { negative: false, magnitude: n, scale: 0 })
}

/// The decimal text of a count.
pub fn count_text(n: usize) -> (r: String)
    ensures
        r@ == nat_text(n as nat),
{
    let d = Decimal::from_u64(n as u64);
    d.to_text()
}

/// The names shown for the paths.
pub open spec fn basenames(paths: Seq<Seq<char>>) -> Seq<Seq<char>> {
    paths.map_values(|p: Seq<char>| basename_text(p))
}

/// The names shown for the paths.
fn basenames_of(paths: &Vec<String>) -> (r: Vec<String>)
    ensures
        string_texts(r@) == basenames(texts(paths@)),
{
    let mut out: Vec<String> = Vec::new();
    let mut i: usize = 0;
    while i < paths.len()
        invariant
            i <= paths@.len(),
            out@.len() == i,
            forall|k: int| 0 <= k < i ==> (#[trigger] out@[k])@ == basename_text(paths@[k]@),
        decreases paths@.len() - i,
    {
        out.push(basename(paths[i].as_str()));
        i = i + 1;
    }
    assert(string_texts(out@) =~= basenames(texts(paths@)));
    out
}

/// The lines of one price mismatch.
pub open spec fn mismatch_lines(m: MismatchView, has_discounts: bool) -> Seq<Seq<char>> {
    seq!["- "@ + m.key] + (if has_discounts {
        seq![
            "  - precio original en factura: "@ + decimal_text(normalize(m.invoice_price)),
            "  - precio con descuentos aplicados: "@ + decimal_text(
                normalize(rounded_value(m.compared_invoice_price, 2)),
            ),
        ]
    } else {
        seq!["  - precio en factura: "@ + decimal_text(normalize(m.invoice_price))]
    }) + seq![
        "  - precio en sistema: "@ + decimal_text(normalize(m.system_price)),
        "  - archivo del sistema: "@ + basename_text(m.system_file),
        "  - resultado porcentual: "@ + figure_text(m.percentage_result) + "%"@,
    ]
}

/// The lines of the price mismatches, a blank line between each two.
pub open spec fn mismatch_section(ms: Seq<MismatchView>, has_discounts: bool) -> Seq<Seq<char>>
    decreases ms.len(),
{
    if ms.len() == 0 {
        Seq::empty()
    } else if ms.len() == 1 {
        mismatch_lines(ms[0], has_discounts)
    } else {
        mismatch_section(ms.drop_last(), has_discounts) + seq![Seq::empty()] + mismatch_lines(
            ms.last(),
            has_discounts,
        )
    }
}

/// The lines of one multiple match.
pub open spec fn multiple_lines(m: MultipleMatchView) -> Seq<Seq<char>> {
    seq![
        "- "@ + m.key,
        "  - fila en factura: "@ + nat_text(m.invoice_row_number),
        "  - archivo(s) del sistema: "@ + comma_joined(basenames(m.system_files)),
        "  - fila(s) del sistema: "@ + comma_joined(
            m.system_rows.map_values(|n: nat| nat_text(n)),
        ),
    ]
}

/// The lines of the multiple matches.
pub open spec fn multiple_section(ms: Seq<MultipleMatchView>) -> Seq<Seq<char>>
    decreases ms.len(),
{
    if ms.len() == 0 {
        Seq::empty()
    } else {
        multiple_section(ms.drop_last()) + multiple_lines(ms.last())
    }
}

/// The lines of the missing keys.
pub open spec fn missing_section(keys: Seq<Seq<char>>) -> Seq<Seq<char>> {
    keys.map_values(|k: Seq<char>| "- "@ + k)
}

/// The views of the mismatches of a report.
pub open spec fn mismatch_views(ms: Seq<PriceMismatch>) -> Seq<MismatchView> {
    ms.map_values(|m: PriceMismatch| m@)
}

/// The views of the multiple matches of a report.
pub open spec fn multiple_views(ms: Seq<MultipleMatch>) -> Seq<MultipleMatchView> {
    ms.map_values(|m: MultipleMatch| m@)
}

/// The lines of the text report.
pub open spec fn report_lines(report: ReviewReport) -> Seq<Seq<char>> {
    let has_discounts = report.discounts@.len() > 0;
    let mismatches = mismatch_views(report.price_mismatches@);
    let multiples = multiple_views(report.multiple_matches@);
    let missing = key_texts(report.missing_keys@);
    seq![
        "Factura: "@ + basename_text(report.invoice_file@),
        "Sistema: "@ + comma_joined(basenames(texts(report.system_files@))),
        Seq::empty(),
        "1. Precios incorrectos"@,
    ] + (if mismatches.len() == 0 {
        seq!["- Ninguno"@]
    } else {
        mismatch_section(mismatches, has_discounts)
    }) + seq![Seq::empty(), "2. Claves no encontradas"@] + (if missing.len() == 0 {
        seq!["- Ninguna"@]
    } else {
        missing_section(missing)
    }) + seq![Seq::empty(), "3. Coincidencias múltiples"@] + (if multiples.len() == 0 {
        seq!["- Ninguna"@]
    } else {
        multiple_section(multiples)
    }) + seq![
        Seq::empty(),
        "4. Resumen final"@,
        "- total de filas revisadas: "@ + nat_text(report.summary.total_rows_reviewed as nat),
        "- total de precios incorrectos: "@ + nat_text(
            report.summary.total_price_mismatches as nat,
        ),
        "- total de claves no encontradas: "@ + nat_text(report.summary.total_missing_keys as nat),
        "- total de coincidencias múltiples: "@ + nat_text(
            report.summary.total_multiple_matches as nat,
        ),
    ]
}

/// Appends a line.
fn push_line(lines: &mut Vec<String>, line: String)
    ensures
        string_texts(final(lines)@) == string_texts(old(lines)@).push(line@),
{
    lines.push(line);
    assert(string_texts(lines@) =~= string_texts(old(lines)@).push(line@));
}

/// Appends `prefix` followed by `rest` as a line.
fn push_joined(lines: &mut Vec<String>, prefix: &str, rest: &str)
    ensures
        string_texts(final(lines)@) == string_texts(old(lines)@).push(prefix@ + rest@),
{
    push_line(lines, concat(prefix, rest));
}

/// Appends the lines of one price mismatch.
fn push_mismatch(lines: &mut Vec<String>, m: &PriceMismatch, has_discounts: bool)
    ensures
        string_texts(final(lines)@) == string_texts(old(lines)@) + mismatch_lines(m@, has_discounts),
{
    let ghost start = string_texts(lines@);
    let ghost v = m@;
    push_joined(lines, "- ", m.key.as_str());
    let ghost first = string_texts(lines@);
    proof {
        assert(first =~= start + seq!["- "@ + v.key]);
    }
    if has_discounts {
        let a = format_number(m.invoice_price.amount());
        push_joined(lines, "  - precio original en factura: ", a.as_str());
        let rounded = round_number(m.compared_invoice_price.amount(), 2);
        let b = format_number(&rounded);
        push_joined(lines, "  - precio con descuentos aplicados: ", b.as_str());
        proof {
            crate::decimal::lemma_normalize(rounded_value(v.compared_invoice_price, 2));
            assert(normalize(normalize(rounded_value(v.compared_invoice_price, 2))) == normalize(
                rounded_value(v.compared_invoice_price, 2),
            ));
            assert(string_texts(lines@) =~= first + seq![
                "  - precio original en factura: "@ + decimal_text(normalize(v.invoice_price)),
                "  - precio con descuentos aplicados: "@ + decimal_text(
                    normalize(rounded_value(v.compared_invoice_price, 2)),
                ),
            ]);
        }
    } else {
        let a = format_number(m.invoice_price.amount());
        push_joined(lines, "  - precio en factura: ", a.as_str());
        proof {
            assert(string_texts(lines@) =~= first + seq![
                "  - precio en factura: "@ + decimal_text(normalize(v.invoice_price)),
            ]);
        }
    }
    let ghost middle = string_texts(lines@);
    let c = format_number(m.system_price.amount());
    push_joined(lines, "  - precio en sistema: ", c.as_str());
    let d = basename(m.system_file.as_str());
    push_joined(lines, "  - archivo del sistema: ", d.as_str());
    let e = format_figure(m.percentage_result.figure());
    let f = concat(e.as_str(), "%");
    push_joined(lines, "  - resultado porcentual: ", f.as_str());
    proof {
        assert("  - resultado porcentual: "@ + f@ =~= "  - resultado porcentual: "@ + figure_text(
            v.percentage_result,
        ) + "%"@);
        assert(string_texts(lines@) =~= middle + seq![
            "  - precio en sistema: "@ + decimal_text(normalize(v.system_price)),
            "  - archivo del sistema: "@ + basename_text(v.system_file),
            "  - resultado porcentual: "@ + figure_text(v.percentage_result) + "%"@,
        ]);
        assert(string_texts(lines@) =~= start + mismatch_lines(v, has_discounts));
    }
}

/// Appends the lines of one multiple match.
fn push_multiple(lines: &mut Vec<String>, m: &MultipleMatch)
    ensures
        string_texts(final(lines)@) == string_texts(old(lines)@) + multiple_lines(m@),
{
    let ghost start = string_texts(lines@);
    push_joined(lines, "- ", m.key.as_str());
    let a = count_text(m.invoice_row_number.get());
    push_joined(lines, "  - fila en factura: ", a.as_str());
    let names = basenames_of(&m.system_files);
    let b = join_with_commas(&names);
    push_joined(lines, "  - archivo(s) del sistema: ", b.as_str());
    let mut row_texts: Vec<String> = Vec::new();
    let mut i: usize = 0;
    while i < m.system_rows.len()
        invariant
            i <= m.system_rows@.len(),
            row_texts@.len() == i,
            forall|k: int|
                0 <= k < i ==> (#[trigger] row_texts@[k])@ == nat_text(m.system_rows@[k]@),
        decreases m.system_rows@.len() - i,
    {
        row_texts.push(count_text(m.system_rows[i].get()));
        i = i + 1;
    }
    proof {
        assert(string_texts(row_texts@) =~= numbers(m.system_rows@).map_values(
            |n: nat| nat_text(n),
        ));
    }
    let c = join_with_commas(&row_texts);
    push_joined(lines, "  - fila(s) del sistema: ", c.as_str());
    proof {
        assert(string_texts(lines@) =~= start + multiple_lines(m@));
    }
}

/// Appends the lines of the price mismatches.
fn push_mismatch_section(lines: &mut Vec<String>, report: &ReviewReport)
    ensures
        string_texts(final(lines)@) == string_texts(old(lines)@) + (if report.price_mismatches@.len()
            == 0 {
            seq!["- Ninguno"@]
        } else {
            mismatch_section(
                mismatch_views(report.price_mismatches@),
                report.discounts@.len() > 0,
            )
        }),
{
    let ghost mismatches = mismatch_views(report.price_mismatches@);
    let has_discounts = report.discounts.len() > 0;
    let ghost head = string_texts(lines@);
    if report.price_mismatches.len() == 0 {
        push_line(lines, "- Ninguno".to_owned());
    } else {
        let mut i: usize = 0;
        while i < report.price_mismatches.len()
            invariant
                i <= report.price_mismatches@.len(),
                mismatches == mismatch_views(report.price_mismatches@),
                has_discounts == (report.discounts@.len() > 0),
                string_texts(lines@) == head + mismatch_section(
                    mismatches.take(i as int),
                    has_discounts,
                ),
            decreases report.price_mismatches@.len() - i,
        {
            proof {
                assert(mismatches.take(i + 1).drop_last() =~= mismatches.take(i as int));
                assert(mismatches[i as int] == report.price_mismatches@[i as int]@);
            }
            if i > 0 {
                push_line(lines, String::new());
            }
            push_mismatch(lines, &report.price_mismatches[i], has_discounts);
            proof {
                if i == 0 {
                    assert(mismatches.take(1).len() == 1);
                    assert(string_texts(lines@) =~= head + mismatch_section(
                        mismatches.take(1),
                        has_discounts,
                    ));
                } else {
                    assert(string_texts(lines@) =~= head + mismatch_section(
                        mismatches.take(i + 1),
                        has_discounts,
                    ));
                }
            }
            i = i + 1;
        }
        proof {
            assert(mismatches.take(mismatches.len() as int) =~= mismatches);
        }
    }
}

/// Appends the lines of the missing keys.
fn push_missing_section(lines: &mut Vec<String>, report: &ReviewReport)
    ensures
        string_texts(final(lines)@) == string_texts(old(lines)@) + (if report.missing_keys@.len()
            == 0 {
            seq!["- Ninguna"@]
        } else {
            missing_section(key_texts(report.missing_keys@))
        }),
{
    let ghost missing = key_texts(report.missing_keys@);
    let ghost head = string_texts(lines@);
    if report.missing_keys.len() == 0 {
        push_line(lines, "- Ninguna".to_owned());
    } else {
        let mut i: usize = 0;
        while i < report.missing_keys.len()
            invariant
                i <= report.missing_keys@.len(),
                missing == key_texts(report.missing_keys@),
                string_texts(lines@) == head + missing_section(missing.take(i as int)),
            decreases report.missing_keys@.len() - i,
        {
            push_joined(lines, "- ", report.missing_keys[i].as_str());
            proof {
                assert(missing[i as int] == report.missing_keys@[i as int]@);
                assert(missing_section(missing.take(i + 1)) =~= missing_section(
                    missing.take(i as int),
                ).push("- "@ + missing[i as int]));
            }
            i = i + 1;
        }
        proof {
            assert(missing.take(missing.len() as int) =~= missing);
        }
    }
}

/// Appends the lines of the multiple matches.
fn push_multiple_section(lines: &mut Vec<String>, report: &ReviewReport)
    ensures
        string_texts(final(lines)@) == string_texts(old(lines)@) + (if report.multiple_matches@.len()
            == 0 {
            seq!["- Ninguna"@]
        } else {
            multiple_section(multiple_views(report.multiple_matches@))
        }),
{
    let ghost multiples = multiple_views(report.multiple_matches@);
    let ghost head = string_texts(lines@);
    if report.multiple_matches.len() == 0 {
        push_line(lines, "- Ninguna".to_owned());
    } else {
        let mut i: usize = 0;
        while i < report.multiple_matches.len()
            invariant
                i <= report.multiple_matches@.len(),
                multiples == multiple_views(report.multiple_matches@),
                string_texts(lines@) == head + multiple_section(multiples.take(i as int)),
            decreases report.multiple_matches@.len() - i,
        {
            proof {
                assert(multiples.take(i + 1).drop_last() =~= multiples.take(i as int));
                assert(multiples[i as int] == report.multiple_matches@[i as int]@);
            }
            push_multiple(lines, &report.multiple_matches[i]);
            proof {
                assert(string_texts(lines@) =~= head + multiple_section(multiples.take(i + 1)));
            }
            i = i + 1;
        }
        proof {
            assert(multiples.take(multiples.len() as int) =~= multiples);
        }
    }
}

/// Renders the report as text.
#[verifier::rlimit(30)]
pub fn render_text_report(report: &ReviewReport) -> (r: String)
    ensures
        r@ == joined_lines(report_lines(*report)),
{
    let mut lines: Vec<String> = Vec::new();
    let invoice_name = basename(report.invoice_file.as_str());
    push_joined(&mut lines, "Factura: ", invoice_name.as_str());
    let names = basenames_of(&report.system_files);
    let system_names = join_with_commas(&names);
    push_joined(&mut lines, "Sistema: ", system_names.as_str());
    push_line(&mut lines, String::new());
    push_line(&mut lines, "1. Precios incorrectos".to_owned());
    let ghost part1 = string_texts(lines@);
    push_mismatch_section(&mut lines, report);
    let ghost part2 = string_texts(lines@);
    push_line(&mut lines, String::new());
    push_line(&mut lines, "2. Claves no encontradas".to_owned());
    let ghost part3 = string_texts(lines@);
    push_missing_section(&mut lines, report);
    let ghost part4 = string_texts(lines@);
    push_line(&mut lines, String::new());
    push_line(&mut lines, "3. Coincidencias múltiples".to_owned());
    let ghost part5 = string_texts(lines@);
    push_multiple_section(&mut lines, report);
    let ghost part6 = string_texts(lines@);
    push_line(&mut lines, String::new());
    push_line(&mut lines, "4. Resumen final".to_owned());
    let t1 = count_text(report.summary.total_rows_reviewed);
    push_joined(&mut lines, "- total de filas revisadas: ", t1.as_str());
    let t2 = count_text(report.summary.total_price_mismatches);
    push_joined(&mut lines, "- total de precios incorrectos: ", t2.as_str());
    let t3 = count_text(report.summary.total_missing_keys);
    push_joined(&mut lines, "- total de claves no encontradas: ", t3.as_str());
    let t4 = count_text(report.summary.total_multiple_matches);
    push_joined(&mut lines, "- total de coincidencias múltiples: ", t4.as_str());
    proof {
        let r = *report;
        assert(part1 =~= seq![
            "Factura: "@ + basename_text(r.invoice_file@),
            "Sistema: "@ + comma_joined(basenames(texts(r.system_files@))),
            Seq::empty(),
            "1. Precios incorrectos"@,
        ]);
        assert(part3 =~= part2 + seq![Seq::empty(), "2. Claves no encontradas"@]);
        assert(part5 =~= part4 + seq![Seq::empty(), "3. Coincidencias múltiples"@]);
        assert(string_texts(lines@) =~= part6 + seq![
            Seq::empty(),
            "4. Resumen final"@,
            "- total de filas revisadas: "@ + nat_text(r.summary.total_rows_reviewed as nat),
            "- total de precios incorrectos: "@ + nat_text(
                r.summary.total_price_mismatches as nat,
            ),
            "- total de claves no encontradas: "@ + nat_text(r.summary.total_missing_keys as nat),
            "- total de coincidencias múltiples: "@ + nat_text(
                r.summary.total_multiple_matches as nat,
            ),
        ]);
        assert(string_texts(lines@) =~= report_lines(r));
    }
    join_lines(&lines)
}

/// The lines of a price mismatch: its key, then the invoice price as read
/// (labelled as the original price when discounts were applied, followed by
/// the discounted price rounded to two decimals), then the system price as
/// the shortest decimal text of the mismatch's own system price, the system
/// file's name and the variation with a percent sign.
pub proof fn lemma_mismatch_lines_show_each_price(m: MismatchView, has_discounts: bool)
    ensures
        mismatch_lines(m, has_discounts).len() == (if has_discounts {
            6int
        } else {
            5int
        }),
        mismatch_lines(m, has_discounts)[0] == "- "@ + m.key,
        has_discounts ==> mismatch_lines(m, has_discounts)[1]
            == "  - precio original en factura: "@ + decimal_text(normalize(m.invoice_price)),
        has_discounts ==> mismatch_lines(m, has_discounts)[2]
            == "  - precio con descuentos aplicados: "@ + decimal_text(
            normalize(rounded_value(m.compared_invoice_price, 2)),
        ),
        !has_discounts ==> mismatch_lines(m, has_discounts)[1] == "  - precio en factura: "@
            + decimal_text(normalize(m.invoice_price)),
        mismatch_lines(m, has_discounts)[mismatch_lines(m, has_discounts).len() - 3]
            == "  - precio en sistema: "@ + decimal_text(normalize(m.system_price)),
        mismatch_lines(m, has_discounts)[mismatch_lines(m, has_discounts).len() - 2]
            == "  - archivo del sistema: "@ + basename_text(m.system_file),
        mismatch_lines(m, has_discounts)[mismatch_lines(m, has_discounts).len() - 1]
            == "  - resultado porcentual: "@ + figure_text(m.percentage_result) + "%"@,
{
}

/// The discounted price shows only on its own line, and only when discounts
/// were applied: two mismatches that differ in nothing else have the same
/// lines but that one.
pub proof fn lemma_compared_price_only_on_its_line(
    m: MismatchView,
    compared: DecimalValue,
    has_discounts: bool,
)
    ensures
        ({
            let n = MismatchView { compared_invoice_price: compared, ..m };
            &&& mismatch_lines(n, has_discounts).len() == mismatch_lines(m, has_discounts).len()
            &&& forall|i: int|
                0 <= i < mismatch_lines(m, has_discounts).len() && !(has_discounts && i == 2)
                    ==> #[trigger] mismatch_lines(n, has_discounts)[i] == mismatch_lines(
                    m,
                    has_discounts,
                )[i]
        }),
{
}

} // verus!
