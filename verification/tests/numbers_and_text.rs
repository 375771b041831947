use invrev::decimal::Figure;
use invrev::number::{format_figure, format_number, parse_number, round_number};
use invrev::paths::{is_absolute_path, resolve_path, same_path, with_trailing_newline};
use invrev::report::basename;

fn text_of(value: &str) -> String {
    format_number(&parse_number(value).unwrap())
}

#[test]
fn parse_number_ignores_currency_and_separators() {
    assert_eq!(text_of(" $1,234.50 "), "1234.5");
    assert_eq!(text_of("12 %"), "12");
    assert_eq!(text_of("-0"), "-0");
    assert_eq!(text_of("1e3"), "1000");
    assert_eq!(text_of(".5"), "0.5");
    assert!(parse_number("").is_none());
    assert!(parse_number(" $ ").is_none());
    assert!(parse_number("abc").is_none());
    assert!(parse_number("inf").is_none());
    assert!(parse_number("NaN").is_none());
    assert!(parse_number("1e400").is_none());
    assert_eq!(text_of("1e-400"), "0");
}

#[test]
fn round_number_adds_epsilon_then_rounds_halves_away_from_zero() {
    let r = |v: &str, d: u32| format_number(&round_number(&parse_number(v).unwrap(), d));
    assert_eq!(r("377.784", 2), "377.78");
    assert_eq!(r("0.125", 2), "0.13");
    assert_eq!(r("-87.655", 2), "-87.66");
    assert_eq!(r("-0.125", 2), "-0.12");
    assert_eq!(r("-1.875", 2), "-1.87");
    assert_eq!(r("-2.125", 2), "-2.13");
    assert_eq!(r("2.5", 0), "3");
    assert_eq!(r("-2.5", 0), "-3");
    assert_eq!(r("-0.001", 2), "-0");
    assert_eq!(r("-0", 2), "0");
    assert_eq!(r("1.5", 3), "1.5");
}

#[test]
fn negative_half_variations_follow_the_epsilon_nudge() {
    let f = invrev::number::calculate_percentage_variation(
        &parse_number("12345").unwrap(),
        &parse_number("100000").unwrap(),
    );
    assert_eq!(format_figure(&f), "-87.66");
    let g = invrev::number::calculate_percentage_variation(
        &parse_number("99.875").unwrap(),
        &parse_number("100").unwrap(),
    );
    assert_eq!(format_figure(&g), "-0.12");
}

#[test]
fn format_figure_names_special_values() {
    assert_eq!(format_figure(&Figure::Infinite { negative: false }), "inf");
    assert_eq!(format_figure(&Figure::Infinite { negative: true }), "-inf");
    assert_eq!(format_figure(&Figure::NotANumber), "NaN");
}

#[test]
fn basename_takes_the_last_component() {
    assert_eq!(basename("/tmp/factura_47094.xls"), "factura_47094.xls");
    assert_eq!(basename("sistema.xlsx"), "sistema.xlsx");
    assert_eq!(basename("/tmp/dir/"), "dir");
    assert_eq!(basename("/tmp/dir/."), "dir");
    assert_eq!(basename("/tmp/.."), "/tmp/..");
    assert_eq!(basename("/"), "/");
    assert_eq!(basename("."), ".");
    assert_eq!(basename(""), "");
}

#[test]
fn resolve_path_joins_and_cleans() {
    assert_eq!(resolve_path("/home/u", "./a/../b.xls"), "/home/u/b.xls");
    assert_eq!(resolve_path("/home/u/", "b.xls"), "/home/u/b.xls");
    assert_eq!(resolve_path("/home/u", "/abs//x.xls"), "/abs/x.xls");
    assert_eq!(resolve_path("/", "../x"), "/x");
}

#[test]
fn resolving_a_resolved_path_gives_it_back() {
    let once = resolve_path("/home/u", "a/../b//c.xls");
    assert_eq!(once, "/home/u/b/c.xls");
    assert_eq!(resolve_path("/elsewhere", &once), once);
    let root = resolve_path("/", "..");
    assert_eq!(resolve_path("/tmp", &root), root);
}

#[test]
fn trailing_newline_is_added_once() {
    assert_eq!(with_trailing_newline("a", true), "a\n");
    assert_eq!(with_trailing_newline("a\n", true), "a\n");
    assert_eq!(with_trailing_newline("a", false), "a");
    assert_eq!(with_trailing_newline("", true), "\n");
}

#[test]
fn absolute_paths_start_at_the_root() {
    assert!(is_absolute_path("/tmp/a.xls"));
    assert!(!is_absolute_path("./a.xls"));
    assert!(!is_absolute_path(""));
}

#[test]
fn paths_are_the_same_when_their_components_agree() {
    assert!(same_path("/tmp/./EAG.xlsx", "/tmp/EAG.xlsx"));
    assert!(same_path("/tmp//EAG.xlsx/", "/tmp/EAG.xlsx"));
    assert!(same_path("./a/b", "./a/./b"));
    assert!(!same_path("./a", "a"));
    assert!(!same_path("/a", "a"));
    assert!(!same_path("/tmp/../EAG.xlsx", "/EAG.xlsx"));
}
