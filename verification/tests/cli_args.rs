use invrev::cli::{
    build_help_message, build_version_message, parse_cli_args, split_system_paths, CliOptions,
    ReviewCliOptions,
};
use invrev::commands::{validate, ReviewInvoiceRequest};
use invrev::errors::CliError;
use invrev::number::parse_number;
use invrev::types::{DiscountRate, SensitivityThreshold};

fn discount(value: f64) -> DiscountRate {
    DiscountRate::new(parse_number(&value.to_string()).unwrap()).unwrap()
}

fn sensitivity(value: f64) -> SensitivityThreshold {
    SensitivityThreshold::new(parse_number(&value.to_string()).unwrap()).unwrap()
}

fn strings(args: &[&str]) -> Vec<String> {
    args.iter().map(|s| s.to_string()).collect()
}

#[test]
fn parse_cli_args_accepts_direct_invocation_with_flags() {
    let options = parse_cli_args(strings(&[
        "-i",
        "./47088.xls",
        "-s",
        "./EAG.xlsx",
        "--system=./ACC.xlsx,./BSC.xlsx",
        "-d",
        "19",
        "--discount=12.5",
        "--sensitivity",
        "-1",
        "-o",
        "./reporte.txt",
        "--json",
        "./reporte.json",
    ]))
    .unwrap();

    assert_eq!(
        options,
        CliOptions::Review(ReviewCliOptions {
            invoice_path: Some("./47088.xls".to_string()),
            system_paths: vec![
                "./EAG.xlsx".to_string(),
                "./ACC.xlsx".to_string(),
                "./BSC.xlsx".to_string(),
            ],
            discounts: vec![discount(19.0), discount(12.5)],
            sensitivity: Some(sensitivity(-1.0)),
            output_path: Some("./reporte.txt".to_string()),
            json_path: Some("./reporte.json".to_string()),
        }),
    );
}

#[test]
fn parse_cli_args_accepts_version() {
    assert_eq!(parse_cli_args(vec!["--version".to_string()]).unwrap(), CliOptions::Version);
    assert_eq!(parse_cli_args(vec!["-v".to_string()]).unwrap(), CliOptions::Version);
}

#[test]
fn parse_cli_args_accepts_compact_sensitivity() {
    let options = parse_cli_args(strings(&[
        "--invoice",
        "./47088.xls",
        "--system",
        "./EAG.xlsx",
        "--discount",
        "5.5",
        "--sensitivity=-0.5",
    ]))
    .unwrap();

    assert_eq!(
        options,
        CliOptions::Review(ReviewCliOptions {
            invoice_path: Some("./47088.xls".to_string()),
            system_paths: vec!["./EAG.xlsx".to_string()],
            discounts: vec![discount(5.5)],
            sensitivity: Some(sensitivity(-0.5)),
            output_path: None,
            json_path: None,
        }),
    );
}

#[test]
fn parse_cli_args_rejects_bad_discount() {
    let error = parse_cli_args(strings(&[
        "--invoice",
        "./47088.xls",
        "--system",
        "./EAG.xlsx",
        "--discount",
        "abc",
    ]))
    .unwrap_err();

    assert_eq!(
        error.message(),
        "`--discount` requiere un porcentaje numérico mayor a 0 y menor a 100, por ejemplo `--discount 19` o `--discount 5.5`."
    );
}

#[test]
fn parse_cli_args_rejects_missing_invoice_path_before_next_flag() {
    let error = parse_cli_args(strings(&["--invoice", "--system", "./EAG.xlsx"])).unwrap_err();

    assert_eq!(error.message(), "`--invoice` requiere una ruta.");
}

#[test]
fn parse_cli_args_rejects_empty_compact_system_paths() {
    let error = parse_cli_args(strings(&["--invoice", "./47088.xls", "--system="])).unwrap_err();

    assert_eq!(error.message(), "`--system` requiere al menos una ruta.");
}

#[test]
fn help_message_keeps_direct_invocation() {
    let help = build_help_message();
    assert!(help.contains(
        "invrev -i ./47088.xls -s ./EAG.xlsx -o ./reporte.txt --json ./reporte.json"
    ));
    assert!(help.contains("--discount <n>"));
    assert!(help.contains(&build_version_message()));
    assert!(help.contains("precio_usado / precio_sistema"));
}

#[test]
fn validate_requires_invoice() {
    let error = validate(ReviewCliOptions {
        invoice_path: None,
        system_paths: vec!["./EAG.xlsx".to_string()],
        discounts: vec![],
        output_path: None,
        json_path: None,
        sensitivity: None,
    })
    .unwrap_err();

    assert_eq!(
        error.message(),
        "Debes indicar la factura con `--invoice <ruta>` o `-i <ruta>`."
    );
}

#[test]
fn validate_requires_at_least_one_system_file() {
    let error = validate(ReviewCliOptions {
        invoice_path: Some("./47088.xls".to_string()),
        system_paths: vec![],
        discounts: vec![],
        output_path: None,
        json_path: None,
        sensitivity: None,
    })
    .unwrap_err();

    assert_eq!(
        error.message(),
        "Debes indicar al menos un archivo del sistema con `--system <ruta>` o `-s <ruta>`."
    );
}

#[test]
fn validate_translates_cli_options_into_application_request() {
    let request = validate(ReviewCliOptions {
        invoice_path: Some("./47088.xls".to_string()),
        system_paths: vec!["./EAG.xlsx".to_string(), "./ACC.xlsx".to_string()],
        discounts: vec![discount(19.0)],
        output_path: Some("./reporte.txt".to_string()),
        json_path: Some("./reporte.json".to_string()),
        sensitivity: Some(sensitivity(-1.0)),
    })
    .unwrap();

    assert_eq!(
        request,
        ReviewInvoiceRequest {
            invoice_path: "./47088.xls".to_string(),
            system_paths: vec!["./EAG.xlsx".to_string(), "./ACC.xlsx".to_string()],
            discounts: vec![discount(19.0)],
            output_path: Some("./reporte.txt".to_string()),
            json_path: Some("./reporte.json".to_string()),
            sensitivity: Some(sensitivity(-1.0)),
        }
    );
}

#[test]
fn main_like_version_flow_short_circuits_review() {
    let options = parse_cli_args(strings(&[
        "--version",
        "-i",
        "./factura-inexistente.xls",
        "-s",
        "./sistema-inexistente.xlsx",
    ]))
    .unwrap();

    assert_eq!(options, CliOptions::Version);
    assert_eq!(build_version_message(), "invrev 0.2.0");
}

#[test]
fn empty_command_line_asks_for_help() {
    assert_eq!(parse_cli_args(vec![]).unwrap(), CliOptions::Help);
}

#[test]
fn help_flag_asks_for_help_unless_version_is_asked() {
    assert_eq!(parse_cli_args(strings(&["-i", "a.xls", "-h"])).unwrap(), CliOptions::Help);
    assert_eq!(parse_cli_args(strings(&["--help", "-v"])).unwrap(), CliOptions::Version);
}

#[test]
fn unknown_flag_is_named() {
    let error = parse_cli_args(strings(&["--invoice", "a.xls", "--bogus"])).unwrap_err();
    assert_eq!(error, CliError::UnknownFlag { argument: "--bogus".to_string() });
    assert_eq!(error.message(), "Argumento no reconocido: --bogus");
}

#[test]
fn positional_argument_is_refused() {
    let error = parse_cli_args(strings(&["review", "-i", "a.xls"])).unwrap_err();
    assert_eq!(
        error.message(),
        "Argumento no reconocido: review. Esta CLI no usa subcomandos. Usa directamente -i y -s."
    );
}

#[test]
fn sensitivity_must_be_negative() {
    let error = parse_cli_args(strings(&["--sensitivity", "1"])).unwrap_err();
    assert_eq!(
        error,
        CliError::InvalidSensitivity { raw_value: Some("1".to_string()) }
    );
    assert_eq!(
        error.message(),
        "`--sensitivity` requiere un valor numérico negativo, por ejemplo `--sensitivity -1`."
    );
    let missing = parse_cli_args(strings(&["-i", "a.xls", "--sensitivity"])).unwrap_err();
    assert_eq!(missing, CliError::InvalidSensitivity { raw_value: None });
}

#[test]
fn discount_bounds_are_exclusive() {
    let zero = parse_cli_args(strings(&["-d", "0"])).unwrap_err();
    assert_eq!(zero, CliError::InvalidDiscount { raw_value: Some("0".to_string()) });
    let hundred = parse_cli_args(strings(&["-d=100"])).unwrap_err();
    assert_eq!(hundred, CliError::InvalidDiscount { raw_value: Some("100".to_string()) });
    let padded = parse_cli_args(strings(&["--discount", " 150 "])).unwrap_err();
    assert_eq!(padded, CliError::InvalidDiscount { raw_value: Some("150".to_string()) });
    let blank = parse_cli_args(strings(&["--discount", "  "])).unwrap_err();
    assert_eq!(blank, CliError::InvalidDiscount { raw_value: Some("  ".to_string()) });
    let ok = parse_cli_args(strings(&["-d", "99.9"])).unwrap();
    match ok {
        CliOptions::Review(o) => assert_eq!(o.discounts, vec![discount(99.9)]),
        other => panic!("unexpected {:?}", other),
    }
}

#[test]
fn path_option_without_value_is_refused() {
    let error = parse_cli_args(strings(&["-i", "a.xls", "-o"])).unwrap_err();
    assert_eq!(error, CliError::MissingPathValue { flag: "-o".to_string() });
    let system = parse_cli_args(strings(&["-s", "-i"])).unwrap_err();
    assert_eq!(system, CliError::MissingSystemPathValue);
}

#[test]
fn compact_system_paths_are_trimmed_and_kept_in_order() {
    assert_eq!(
        split_system_paths(" a.xlsx , ,b.xlsx,"),
        vec!["a.xlsx".to_string(), "b.xlsx".to_string()]
    );
    assert_eq!(split_system_paths(" , "), Vec::<String>::new());
    let options = parse_cli_args(strings(&["-s=x.xlsx", "-s", "y.xlsx", "--system=z.xlsx"])).unwrap();
    match options {
        CliOptions::Review(o) => assert_eq!(
            o.system_paths,
            vec!["x.xlsx".to_string(), "y.xlsx".to_string(), "z.xlsx".to_string()]
        ),
        other => panic!("unexpected {:?}", other),
    }
}

#[test]
fn later_invoice_path_replaces_earlier_one() {
    let options = parse_cli_args(strings(&["-i", "a.xls", "--invoice", "b.xls"])).unwrap();
    match options {
        CliOptions::Review(o) => assert_eq!(o.invoice_path, Some("b.xls".to_string())),
        other => panic!("unexpected {:?}", other),
    }
}
