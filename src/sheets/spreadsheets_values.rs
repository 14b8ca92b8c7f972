//! Ranges of cell values.
use vstd::prelude::*;
use crate::summary::rows_of;

verus! {

/// The values of several ranges of one spreadsheet.
#[derive(Debug)]
pub struct SpreadsheetValues {
    pub spreadsheet_id: String,
    pub value_ranges: Vec<SpreadsheetValueRange>,
}

/// The values of one range, as rows or as columns.
#[derive(Debug)]
pub struct SpreadsheetValueRange {
    pub range: String,
    pub major_dimension: MajorDimension,
    pub values: Vec<Vec<String>>,
}

/// Whether the outer list of values holds rows or columns.
#[derive(Clone, Copy, Debug, PartialEq, Eq, Structural)]
pub enum MajorDimension {
    Columns,
    Rows,
}

impl SpreadsheetValueRange {
    /// Appends one row (or column) of values.
    pub fn add_value(&mut self, v: Vec<String>)
        ensures
            rows_of(final(self).values@) == rows_of(old(self).values@).push(crate::text::views(v@)),
            final(self).range == old(self).range,
            final(self).major_dimension == old(self).major_dimension,
    {
        let ghost before = self.values@;
        let ghost added = crate::text::views(v@);
        self.values.push(v);
        assert(rows_of(self.values@) =~= rows_of(before).push(added));
    }
}

} // verus!
