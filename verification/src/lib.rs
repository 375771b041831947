//! Review of an invoice against one or more system price lists.

pub mod cli;
pub mod commands;
pub mod decimal;
pub mod errors;
pub mod discounts;
pub mod matching;
pub mod natural;
pub mod number;
pub mod report;
pub mod review;
pub mod spreadsheet;
pub mod numeral;
pub mod paths;
pub mod text;
pub mod types;

pub use commands::{main_entry, render_error};
