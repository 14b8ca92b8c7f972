//! Spreadsheets, their sheets and embedded charts. Colours are not held here.
use vstd::prelude::*;

verus! {

/// A spreadsheet and its sheets.
#[derive(Debug)]
pub struct Spreadsheet {
    pub spreadsheet_id: String,
    pub sheets: Vec<Sheet>,
    pub spreadsheet_url: String,
}

/// Properties of a spreadsheet.
#[derive(Debug)]
pub struct SpreadsheetProperties {
    pub title: String,
    pub locale: String,
    pub auto_recalc: Option<RecalculationInterval>,
    pub time_zone: String,
    pub default_format: Option<CellFormat>,
    pub iterative_calculation_settings: Option<IterativeCalculationSettings>,
}

/// How often volatile functions are recalculated.
#[derive(Clone, Copy, Debug, PartialEq, Eq, Structural)]
pub enum RecalculationInterval {
    RecalculationIntervalUnspecified,
    OnChange,
    Minute,
    Hour,
}

#[derive(Clone, Copy, Debug, PartialEq, Eq, Structural)]
pub struct CellFormat {}

#[derive(Clone, Copy, Debug, PartialEq, Eq, Structural)]
pub struct IterativeCalculationSettings {}

/// A sheet of a spreadsheet.
#[derive(Debug)]
pub struct Sheet {
    pub properties: SheetProperties,
}

/// Properties of a sheet.
#[derive(Debug)]
pub struct SheetProperties {
    pub sheet_id: Option<u64>,
    pub title: String,
    pub index: Option<u64>,
    pub sheet_type: Option<SheetType>,
    pub grid_properties: Option<GridProperties>,
    pub hidden: Option<bool>,
    pub right_to_left: Option<bool>,
}

/// What a sheet holds.
#[derive(Clone, Copy, Debug, PartialEq, Eq, Structural)]
pub enum SheetType {
    SheetTypeUnspecified,
    Grid,
    Object,
}

/// The size and frozen parts of a grid.
#[derive(Clone, Copy, Debug, PartialEq, Eq, Structural)]
pub struct GridProperties {
    pub row_count: Option<u64>,
    pub column_count: Option<u64>,
    pub frozen_row_count: Option<u64>,
    pub frozen_column_count: Option<u64>,
    pub hide_gridlines: Option<u64>,
    pub row_group_control_after: Option<bool>,
    pub column_group_control_after: Option<bool>,
}

#[derive(Clone, Copy, Debug, PartialEq, Eq, Structural)]
pub struct NamedRange {}

#[derive(Clone, Copy, Debug, PartialEq, Eq, Structural)]
pub struct DeveloperMetadata {}

/// The horizontal alignment of text.
#[derive(Clone, Copy, Debug, PartialEq, Eq, Structural)]
pub enum HorizontalAlign {
    HorizontalAlignUnspecified,
    Left,
    Center,
    Right,
}

/// A chart placed in a sheet.
#[derive(Debug)]
pub struct EmbeddedChart {
    pub chart_id: Option<u64>,
    pub spec: ChartSpec,
    pub position: EmbeddedObjectPosition,
}

/// What a chart shows and how.
#[derive(Debug)]
pub struct ChartSpec {
    pub title: Option<String>,
    pub alt_text: Option<String>,
    pub title_text_format: Option<TextFormat>,
    pub title_text_position: Option<TextPosition>,
    pub subtitle: Option<String>,
    pub subtitle_text_format: Option<TextFormat>,
    pub subtitle_text_position: Option<TextPosition>,
    pub font_name: Option<String>,
    pub maximized: Option<bool>,
    pub hidden_dimension_strategy: Option<ChartHiddenDimensionStrategy>,
    pub basic_chart: Option<super::basic_chart::BasicChartSpec>,
}

/// The format of a run of text.
#[derive(Debug)]
pub struct TextFormat {
    pub font_family: String,
    pub font_size: u64,
    pub bold: bool,
    pub italic: bool,
    pub strikethrough: bool,
    pub underline: bool,
}

/// Where a text stands.
#[derive(Clone, Copy, Debug, PartialEq, Eq, Structural)]
pub struct TextPosition {
    pub horizontal_alignment: HorizontalAlign,
}

/// How a chart treats hidden rows and columns.
#[derive(Clone, Copy, Debug, PartialEq, Eq, Structural)]
pub enum ChartHiddenDimensionStrategy {
    ChartHiddenDimensionStrategyUnspecified,
    SkipHiddenRowsAndColumns,
    SkipHiddenRows,
    SkipHiddenColumns,
    ShowAll,
}

/// Where an embedded object stands.
#[derive(Clone, Copy, Debug, PartialEq, Eq, Structural)]
pub struct EmbeddedObjectPosition {
    pub sheet_id: Option<u64>,
    pub overlay_position: Option<OverlayPosition>,
    pub new_sheet: bool,
}

/// An object laid over a grid.
#[derive(Clone, Copy, Debug, PartialEq, Eq, Structural)]
pub struct OverlayPosition {
    pub anchor_cell: GridCoordinate,
    pub offset_x_pixels: Option<u64>,
    pub offset_y_pixels: Option<u64>,
    pub width_pixels: Option<u64>,
    pub height_pixels: Option<u64>,
}

/// A cell of a sheet.
#[derive(Clone, Copy, Debug, PartialEq, Eq, Structural)]
pub struct GridCoordinate {
    pub sheet_id: u64,
    pub row_index: u64,
    pub column_index: u64,
}

} // verus!
