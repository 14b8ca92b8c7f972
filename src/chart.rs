//! The column chart that sits beside a summary table.
use vstd::prelude::*;
use crate::sheets::basic_chart::{
    BasicChartAxisPosition, BasicChartCompareMode, BasicChartDomain, BasicChartLegendPosition,
    BasicChartSeries, BasicChartSpec, BasicChartStackedType, BasicChartType, ChartData,
    ChartSourceRange, GridRange,
};
use crate::sheets::spreadsheets::{ChartSpec, EmbeddedChart, EmbeddedObjectPosition};
use crate::sheets::spreadsheets_batch_update::{AddChartRequest, Request, SpreadsheetBatchUpdate};

verus! {

/// The columns of a summary row that the chart reads.
pub const CHART_COLUMNS: u64 = 13;

/// Row `row` of the summary sheet, over the charted columns.
pub open spec fn summary_range(sheet_id: u64, row: u64) -> GridRange {
    GridRange {
        sheet_id,
        start_row_index: row,
        end_row_index: (row + 1) as u64,
        start_column_index: 0,
        end_column_index: CHART_COLUMNS,
    }
}

/// A series of columns read from one summary row, on the left axis.
pub open spec fn is_row_series(s: BasicChartSeries, sheet_id: u64, row: u64) -> bool {
    &&& s.series.source_range.sources@ == seq![summary_range(sheet_id, row)]
    &&& s.target_axis == BasicChartAxisPosition::LeftAxis
    &&& s.chart_type == Some(BasicChartType::Column)
    &&& s.line_style is None
}

/// The chart of a summary: a column chart on a new sheet, titled `title`, whose
/// domain is the header row and whose series are the next two rows.
pub open spec fn is_summary_chart(r: SpreadsheetBatchUpdate, sheet_id: u64, title: Seq<char>) -> bool {
    &&& r.requests@.len() == 1
    &&& r.requests@[0].add_sheet is None
    &&& r.requests@[0].add_chart matches Some(req) && {
        let chart = req.chart;
        &&& chart.chart_id is None
        &&& chart.position == EmbeddedObjectPosition { sheet_id: None, overlay_position: None, new_sheet: true }
        &&& chart.spec.title matches Some(t) && t@ == title
        &&& chart.spec.alt_text is None
        &&& chart.spec.title_text_format is None
        &&& chart.spec.title_text_position is None
        &&& chart.spec.subtitle is None
        &&& chart.spec.subtitle_text_format is None
        &&& chart.spec.subtitle_text_position is None
        &&& chart.spec.font_name is None
        &&& chart.spec.maximized is None
        &&& chart.spec.hidden_dimension_strategy is None
        &&& chart.spec.basic_chart matches Some(b) && {
            &&& b.chart_type == BasicChartType::Column
            &&& b.legend_position == BasicChartLegendPosition::RightLegend
            &&& b.axis@.len() == 0
            &&& b.domains@.len() == 1
            &&& b.domains@[0].domain.source_range.sources@ == seq![summary_range(sheet_id, 0)]
            &&& !b.domains@[0].reversed
            &&& b.series@.len() == 2
            &&& is_row_series(b.series@[0], sheet_id, 1)
            &&& is_row_series(b.series@[1], sheet_id, 2)
            &&& b.header_count == 1
            &&& !b.three_dimensional
            &&& !b.interpolate_nulls
            &&& b.stacked_type == BasicChartStackedType::NotStacked
            &&& !b.line_smoothing
            &&& b.compare_mode == BasicChartCompareMode::Category
        }
    }
    &&& r.response_ranges@.len() == 0
    &&& !r.response_include_grid_data
    &&& !r.include_spreadsheet_in_response
}

fn row_range(sheet_id: u64, row: u64) -> (r: ChartSourceRange)
    requires
        row < 3,
    ensures
        r.sources@ == seq![summary_range(sheet_id, row)],
{
    let sources = vec![
        GridRange {
            sheet_id,
            start_row_index: row,
            end_row_index: row + 1,
            start_column_index: 0,
            end_column_index: CHART_COLUMNS,
        },
    ];
    assert(sources@ =~= seq![summary_range(sheet_id, row)]);
    ChartSourceRange { sources }
}

fn row_series(sheet_id: u64, row: u64) -> (r: BasicChartSeries)
    requires
        row < 3,
    ensures
        is_row_series(r, sheet_id, row),
{
    BasicChartSeries {
        series: ChartData { source_range: row_range(sheet_id, row) },
        target_axis: BasicChartAxisPosition::LeftAxis,
        chart_type: Some(BasicChartType::Column),
        line_style: None,
    }
}

/// The update that adds the summary chart of sheet `sheet_id`, titled `title`.
pub fn add_summary_chart(sheet_id: u64, title: String) -> (r: SpreadsheetBatchUpdate)
    ensures
        is_summary_chart(r, sheet_id, title@),
{
    let ghost t = title@;
    let domains = vec![BasicChartDomain { domain: ChartData { source_range: row_range(sheet_id, 0) }, reversed: false }];
    let series = vec![row_series(sheet_id, 1), row_series(sheet_id, 2)];
    let basic = BasicChartSpec {
        chart_type: BasicChartType::Column,
        legend_position: BasicChartLegendPosition::RightLegend,
        axis: Vec::new(),
        domains,
        series,
        header_count: 1,
        three_dimensional: false,
        interpolate_nulls: false,
        stacked_type: BasicChartStackedType::NotStacked,
        line_smoothing: false,
        compare_mode: BasicChartCompareMode::Category,
    };
    let spec = ChartSpec {
        title: Some(title),
        alt_text: None,
        title_text_format: None,
        title_text_position: None,
        subtitle: None,
        subtitle_text_format: None,
        subtitle_text_position: None,
        font_name: None,
        maximized: None,
        hidden_dimension_strategy: None,
        basic_chart: Some(basic),
    };
    let chart = EmbeddedChart {
        chart_id: None,
        spec,
        position: EmbeddedObjectPosition { sheet_id: None, overlay_position: None, new_sheet: true },
    };
    let requests = vec![Request { add_sheet: None, add_chart: Some(AddChartRequest { chart }) }];
    SpreadsheetBatchUpdate {
        requests,
        response_ranges: Vec::new(),
        response_include_grid_data: false,
        include_spreadsheet_in_response: false,
    }
}

} // verus!
