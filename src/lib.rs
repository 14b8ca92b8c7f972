//! Template-driven scanning and aggregation of survey responses.
//!
//! A catalog of question templates (`config`) tells which question a statement
//! belongs to and how its answers are evaluated; the scanner (`survey`) collects
//! evaluated answers by group, with discriminator columns relabelling later
//! answers; the summary builder (`summary`) turns the groups into tables of
//! means and texts. Numbers are exact decimals (`decimal`). The remaining
//! modules describe the requests exchanged with the spreadsheet and
//! script-project services.
pub mod appsscript;
pub mod chart;
pub mod cmd;
pub mod config;
pub mod decimal;
pub mod drive;
pub mod endpoints;
pub mod evaluate;
pub mod sheets;
pub mod skills;
pub mod summary;
pub mod survey;
pub mod text;
