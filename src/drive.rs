//! What is sent to and read from the spreadsheet: the summary tables to append,
//! the sheet that holds them, and the titles of the sheets to read.
use vstd::prelude::*;
use crate::sheets::spreadsheets::{Sheet, SheetProperties};
use crate::sheets::spreadsheets_batch_update::{AddSheetRequest, BatchUpdateResponse, Request, SpreadsheetBatchUpdate};
use crate::sheets::spreadsheets_values::{MajorDimension, SpreadsheetValueRange};
use crate::summary::{grade_table, rows_of, text_table, Summary};

verus! {

/// The requests of one user of a spreadsheet.
pub struct SpreadsheetClient {
    access_token: String,
}

impl SpreadsheetClient {
    pub closed spec fn token(&self) -> Seq<char> {
        self.access_token@
    }

    pub fn new(access_token: &str) -> (r: Self)
        ensures
            r.token() == access_token@,
    {
        SpreadsheetClient { access_token: String::from_str(access_token) }
    }

    /// The token that authorises the requests.
    pub fn access_token(&self) -> (r: &str)
        ensures
            r@ == self.token(),
    {
        self.access_token.as_str()
    }

    /// The values to append at `range`: the grade table, then the text table,
    /// each as rows.
    pub fn save_summary(&self, range: &str, summary: Summary) -> (r: Vec<SpreadsheetValueRange>)
        ensures
            r@.len() == 2,
            forall|i: int| 0 <= i < 2 ==> (#[trigger] r@[i]).range@ == range@ && r@[i].major_dimension == MajorDimension::Rows,
            rows_of(r@[0].values@) == grade_table(summary.grades_view()),
            rows_of(r@[1].values@) == text_table(summary.texts_view()),
    {
        let ghost grades = summary.grades_view();
        let ghost texts = summary.texts_view();
        let tables = summary.generate_rows();
        let mut out: Vec<SpreadsheetValueRange> = Vec::new();
        let mut i: usize = 0;
        while i < tables.len()
            invariant
                tables@.len() == 2,
                tables@[0]@ == grade_table(grades),
                tables@[1]@ == text_table(texts),
                i <= 2,
                out@.len() == i,
                forall|j: int| 0 <= j < i ==> (#[trigger] out@[j]).range@ == range@ && out@[j].major_dimension
                    == MajorDimension::Rows && rows_of(out@[j].values@) == tables@[j]@,
            decreases 2 - i,
        {
            out.push(
                SpreadsheetValueRange {
                    range: String::from_str(range),
                    major_dimension: MajorDimension::Rows,
                    values: tables[i].rows(),
                },
            );
            i = i + 1;
        }
        out
    }

    /// The update that adds a sheet titled `title`, asking for the spreadsheet
    /// in the reply.
    pub fn add_summary_sheet(&self, title: &str) -> (r: SpreadsheetBatchUpdate)
        ensures
            r.requests@.len() == 1,
            r.requests@[0].add_chart is None,
            r.requests@[0].add_sheet matches Some(a) && a.properties.title@ == title@ && a.properties.sheet_id is None
                && a.properties.index is None && a.properties.sheet_type is None && a.properties.grid_properties is None
                && a.properties.hidden is None && a.properties.right_to_left is None,
            r.include_spreadsheet_in_response,
            r.response_ranges@.len() == 0,
            !r.response_include_grid_data,
    {
        let properties = SheetProperties {
            sheet_id: None,
            title: String::from_str(title),
            index: None,
            sheet_type: None,
            grid_properties: None,
            hidden: None,
            right_to_left: None,
        };
        SpreadsheetBatchUpdate {
            requests: vec![Request { add_sheet: Some(AddSheetRequest { properties }), add_chart: None }],
            include_spreadsheet_in_response: true,
            response_ranges: Vec::new(),
            response_include_grid_data: false,
        }
    }
}

/// The id of the sheet that the first reply reports as added, if it does.
pub fn added_sheet_id(response: &BatchUpdateResponse) -> (r: Option<u64>)
    ensures
        r == (if response.replies@.len() > 0 && response.replies@[0].add_sheet is Some {
            response.replies@[0].add_sheet->Some_0.properties.sheet_id
        } else {
            None
        }),
{
    if response.replies.len() > 0 {
        match &response.replies[0].add_sheet {
            Some(sheet) => sheet.properties.sheet_id,
            None => None,
        }
    } else {
        None
    }
}

/// The titles of the sheets, in order.
pub fn retrieve_sheet_titles(sheet_items: &[Sheet]) -> (r: Vec<String>)
    ensures
        r@.len() == sheet_items@.len(),
        forall|i: int| 0 <= i < r@.len() ==> (#[trigger] r@[i])@ == sheet_items@[i].properties.title@,
{
    let mut out: Vec<String> = Vec::new();
    let mut i: usize = 0;
    while i < sheet_items.len()
        invariant
            i <= sheet_items@.len(),
            out@.len() == i,
            forall|j: int| 0 <= j < i ==> (#[trigger] out@[j])@ == sheet_items@[j].properties.title@,
        decreases sheet_items@.len() - i,
    {
        out.push(sheet_items[i].properties.title.clone());
        i = i + 1;
    }
    out
}

} // verus!
