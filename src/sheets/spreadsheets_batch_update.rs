//! Batched updates of a spreadsheet and their replies.
use vstd::prelude::*;
use super::spreadsheets::{EmbeddedChart, SheetProperties, Spreadsheet};

verus! {

/// Updates to apply to a spreadsheet together.
#[derive(Debug)]
pub struct SpreadsheetBatchUpdate {
    pub requests: Vec<Request>,
    pub include_spreadsheet_in_response: bool,
    pub response_ranges: Vec<String>,
    pub response_include_grid_data: bool,
}

/// One update: a sheet or a chart to add.
#[derive(Debug)]
pub struct Request {
    pub add_sheet: Option<AddSheetRequest>,
    pub add_chart: Option<AddChartRequest>,
}

#[derive(Debug)]
pub struct AddSheetRequest {
    pub properties: SheetProperties,
}

#[derive(Debug)]
pub struct AddChartRequest {
    pub chart: EmbeddedChart,
}

/// The reply to a batch of updates, one reply per update.
#[derive(Debug)]
pub struct BatchUpdateResponse {
    pub spreadsheet_id: String,
    pub replies: Vec<Response>,
    pub updated_spreadsheet: Spreadsheet,
}

/// The reply to one update.
#[derive(Debug)]
pub struct Response {
    pub add_sheet: Option<AddSheetResponse>,
    pub add_chart: Option<AddChartResponse>,
}

/// The properties of a sheet that was added.
#[derive(Debug)]
pub struct AddSheetResponse {
    pub properties: SheetProperties,
}

/// A chart that was added.
#[derive(Debug)]
pub struct AddChartResponse {
    pub chart: EmbeddedChart,
}

} // verus!
