//! The spreadsheet service's data model, as plain values.
pub mod basic_chart;
pub mod spreadsheets;
pub mod spreadsheets_batch_update;
pub mod spreadsheets_values;
