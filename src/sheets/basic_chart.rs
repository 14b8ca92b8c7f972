//! Basic charts: bars, lines, areas, columns and their parts. Colours are not held here.
use vstd::prelude::*;
use super::spreadsheets::{TextFormat, TextPosition};

verus! {

/// A chart with a domain and series of values.
#[derive(Debug)]
pub struct BasicChartSpec {
    pub chart_type: BasicChartType,
    pub legend_position: BasicChartLegendPosition,
    pub axis: Vec<BasicChartAxis>,
    pub domains: Vec<BasicChartDomain>,
    pub series: Vec<BasicChartSeries>,
    pub header_count: u64,
    pub three_dimensional: bool,
    pub interpolate_nulls: bool,
    pub stacked_type: BasicChartStackedType,
    pub line_smoothing: bool,
    pub compare_mode: BasicChartCompareMode,
}

#[derive(Clone, Copy, Debug, PartialEq, Eq, Structural)]
pub enum BasicChartType {
    BasicChartTypeUnspecified,
    Bar,
    Line,
    Area,
    Column,
    Scatter,
    Combo,
    SteppedArea,
}

#[derive(Clone, Copy, Debug, PartialEq, Eq, Structural)]
pub enum BasicChartLegendPosition {
    BasicChartLegendPositionUnspecified,
    BottomLegend,
    LeftLegend,
    RightLegend,
    TopLegend,
    NoLegend,
}

/// An axis of a chart.
#[derive(Debug)]
pub struct BasicChartAxis {
    pub position: BasicChartAxisPosition,
    pub title: Option<String>,
    pub format: Option<TextFormat>,
    pub title_text_position: Option<TextPosition>,
    pub view_window_options: ChartAxisViewWindowOptions,
}

#[derive(Clone, Copy, Debug, PartialEq, Eq, Structural)]
pub enum BasicChartAxisPosition {
    BasicChartAxisPositionUnspecified,
    BottomAxis,
    LeftAxis,
    RightAxis,
}

/// The domain of a chart: the values along its horizontal axis.
#[derive(Debug)]
pub struct BasicChartDomain {
    pub domain: ChartData,
    pub reversed: bool,
}

/// The data of a domain or a series.
#[derive(Debug)]
pub struct ChartData {
    pub source_range: ChartSourceRange,
}

/// The ranges that data is read from.
#[derive(Debug)]
pub struct ChartSourceRange {
    pub sources: Vec<GridRange>,
}

/// A rectangle of cells: rows and columns from start (inclusive) to end (exclusive).
#[derive(Clone, Copy, Debug, PartialEq, Eq, Structural)]
pub struct GridRange {
    pub sheet_id: u64,
    pub start_row_index: u64,
    pub end_row_index: u64,
    pub start_column_index: u64,
    pub end_column_index: u64,
}

/// A series of values in a chart.
#[derive(Debug)]
pub struct BasicChartSeries {
    pub series: ChartData,
    pub target_axis: BasicChartAxisPosition,
    pub chart_type: Option<BasicChartType>,
    pub line_style: Option<LineStyle>,
}

/// The style of a line.
#[derive(Clone, Copy, Debug, PartialEq, Eq, Structural)]
pub struct LineStyle {
    pub width: u64,
    pub line_type: LineDashType,
}

#[derive(Clone, Copy, Debug, PartialEq, Eq, Structural)]
pub enum LineDashType {
    LineDashTypeUnspecified,
    Invisible,
    Custom,
    Solid,
    Dotted,
    MediumDashed,
    MediumDashedDotted,
    LongDashed,
    LongDashedDotted,
}

#[derive(Clone, Copy, Debug, PartialEq, Eq, Structural)]
pub enum BasicChartStackedType {
    BasicChartStackedTypeUnspecified,
    NotStacked,
    Stacked,
    PercentStacked,
}

#[derive(Clone, Copy, Debug, PartialEq, Eq, Structural)]
pub enum BasicChartCompareMode {
    BasicChartCompareModeUnspecified,
    Datum,
    Category,
}

/// The range of values an axis shows.
#[derive(Clone, Copy, Debug, PartialEq, Eq, Structural)]
pub struct ChartAxisViewWindowOptions {
    pub view_window_min: i32,
    pub view_window_max: i32,
    pub view_window_mode: ViewWindowMode,
}

#[derive(Clone, Copy, Debug, PartialEq, Eq, Structural)]
pub enum ViewWindowMode {
    DefaultViewWindowMode,
    ViewWindowModeUnsupported,
    Explicit,
    Pretty,
}

impl Default for BasicChartStackedType {
    fn default() -> (r: Self)
        ensures
            r == BasicChartStackedType::BasicChartStackedTypeUnspecified,
    {
        BasicChartStackedType::BasicChartStackedTypeUnspecified
    }
}

impl Default for ViewWindowMode {
    fn default() -> (r: Self)
        ensures
            r == ViewWindowMode::DefaultViewWindowMode,
    {
        ViewWindowMode::DefaultViewWindowMode
    }
}

} // verus!
