//! What the command line leads to.

use vstd::prelude::*;
use crate::cli::{
    build_help_message, build_version_message, help_lines, parse_cli_args, parsed_cli,
    version_text, CliOptions, CliOptionsView, ReviewCliOptions, ReviewOptionsView,
};
use crate::decimal::DecimalValue;
use crate::discounts::discount_values;
use crate::errors::{AppError, CliError, CliErrorView};
use crate::matching::texts;
use crate::review::sensitivity_value;
use crate::text::joined_lines;
use crate::types::{DiscountRate, SensitivityThreshold};

verus! {

/// A review to run, with every path it needs.
#[derive(Debug, Clone, PartialEq)]
pub struct ReviewInvoiceRequest {
    pub invoice_path: String,
    pub system_paths: Vec<String>,
    pub discounts: Vec<DiscountRate>,
    pub output_path: Option<String>,
    pub json_path: Option<String>,
    pub sensitivity: Option<SensitivityThreshold>,
}

/// The content of a `ReviewInvoiceRequest`.
pub struct RequestView {
    pub invoice_path: Seq<char>,
    pub system_paths: Seq<Seq<char>>,
    pub discounts: Seq<DecimalValue>,
    pub output_path: Option<Seq<char>>,
    pub json_path: Option<Seq<char>>,
    pub sensitivity: Option<DecimalValue>,
}

impl View for ReviewInvoiceRequest {
    type V = RequestView;

    open spec fn view(&self) -> RequestView {
        RequestView {
            invoice_path: self.invoice_path@,
            system_paths: texts(self.system_paths@),
            discounts: discount_values(self.discounts@),
            output_path: crate::cli::opt_view(self.output_path),
            json_path: crate::cli::opt_view(self.json_path),
            sensitivity: sensitivity_value(self.sensitivity),
        }
    }
}

/// The request that review options make, or why they cannot make one: the
/// invoice is missing, or no system file is given.
pub open spec fn validated(o: ReviewOptionsView) -> Result<RequestView, CliErrorView> {
    match o.invoice_path {
        None => Err(CliErrorView::MissingInvoice),
        Some(invoice_path) => if o.system_paths.len() == 0 {
            Err(CliErrorView::MissingSystemFile)
        } else {
            Ok(
                RequestView {
                    invoice_path,
                    system_paths: o.system_paths,
                    discounts: o.discounts,
                    output_path: o.output_path,
                    json_path: o.json_path,
                    sensitivity: o.sensitivity,
                },
            )
        },
    }
}

/// Turns review options into a request.
pub fn validate(options: ReviewCliOptions) -> (r: Result<ReviewInvoiceRequest, CliError>)
    ensures
        match validated(options@) {
            Ok(v) => r matches Ok(x) && x@ == v,
            Err(e) => r matches Err(x) && x@ == e,
        },
{
    let invoice_path = match options.invoice_path {
        Some(p) => p,
        None => {
            return Err(CliError::MissingInvoice);
        },
    };
    if options.system_paths.len() == 0 {
        return Err(CliError::MissingSystemFile);
    }
    Ok(
        ReviewInvoiceRequest {
            invoice_path,
            system_paths: options.system_paths,
            discounts: options.discounts,
            output_path: options.output_path,
            json_path: options.json_path,
            sensitivity: options.sensitivity,
        },
    )
}

/// What the program does next: print a text, or run a review.
#[derive(Debug)]
pub enum Command {
    Print(String),
    Review(ReviewInvoiceRequest),
}

/// What `Command` stands for.
pub enum CommandView {
    Print(Seq<char>),
    Review(RequestView),
}

impl View for Command {
    type V = CommandView;

    open spec fn view(&self) -> CommandView {
        match self {
            Command::Print(s) => CommandView::Print(s@),
            Command::Review(r) => CommandView::Review(r@),
        }
    }
}

/// The command for review options: the review they validate to, or the
/// error.
pub open spec fn review_command(o: ReviewOptionsView) -> Result<CommandView, CliErrorView> {
    match validated(o) {
        Ok(v) => Ok(CommandView::Review(v)),
        Err(e) => Err(e),
    }
}

/// The command for options: the help or the version to print, or the review.
pub open spec fn command_for(o: CliOptionsView) -> Result<CommandView, CliErrorView> {
    match o {
        CliOptionsView::Help => Ok(CommandView::Print(joined_lines(help_lines()))),
        CliOptionsView::Version => Ok(CommandView::Print(version_text())),
        CliOptionsView::Review(r) => review_command(r),
    }
}

/// The command for review options.
pub fn execute(options: ReviewCliOptions) -> (r: Result<Command, AppError>)
    ensures
        match review_command(options@) {
            Ok(v) => r matches Ok(x) && x@ == v,
            Err(e) => r matches Err(AppError::Cli(x)) && x@ == e,
        },
{
    match validate(options) {
        Ok(request) => Ok(Command::Review(request)),
        Err(e) => Err(AppError::Cli(e)),
    }
}

/// The command for the options.
pub fn execute_command(options: CliOptions) -> (r: Result<Command, AppError>)
    ensures
        match command_for(options@) {
            Ok(v) => r matches Ok(x) && x@ == v,
            Err(e) => r matches Err(AppError::Cli(x)) && x@ == e,
        },
{
    match options {
        CliOptions::Help => Ok(Command::Print(build_help_message())),
        CliOptions::Version => Ok(Command::Print(build_version_message())),
        CliOptions::Review(review) => execute(review),
    }
}

/// The command for a command line: what it asks for, or why it cannot be read.
pub open spec fn command_line(args: Seq<Seq<char>>) -> Result<CommandView, CliErrorView> {
    match parsed_cli(args) {
        Ok(o) => command_for(o),
        Err(e) => Err(e),
    }
}

/// Reads the command line and says what to do.
pub fn main_entry(args: Vec<String>) -> (r: Result<Command, AppError>)
    ensures
        match command_line(texts(args@)) {
            Ok(v) => r matches Ok(x) && x@ == v,
            Err(e) => r matches Err(AppError::Cli(x)) && x@ == e,
        },
{
    match parse_cli_args(args) {
        Ok(options) => execute_command(options),
        Err(e) => Err(AppError::Cli(e)),
    }
}

/// The text printed for an error: the message, and the help after a command
/// line error.
pub open spec fn error_text(e: AppError) -> Seq<char> {
    match e {
        AppError::Cli(_) => "Error: "@ + crate::errors::app_error_text(e) + "\n\n"@ + joined_lines(
            help_lines(),
        ),
        _ => "Error: "@ + crate::errors::app_error_text(e),
    }
}

/// The text printed for an error.
pub fn render_error(error: &AppError) -> (r: String)
    ensures
        r@ == error_text(*error),
{
    let message = error.message();
    let a = crate::text::concat("Error: ", message.as_str());
    match error {
        AppError::Cli(_) => {
            let b = crate::text::concat(a.as_str(), "\n\n");
            let help = build_help_message();
            crate::text::concat(b.as_str(), help.as_str())
        },
        _ => a,
    }
}

} // verus!
