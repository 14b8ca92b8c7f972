use probation_check::appsscript::{new_project, script_content, FileType, Template, MANIFEST};
use probation_check::chart::add_summary_chart;
use probation_check::cmd::{config_questions, project_title, select_questions, Cmd};
use probation_check::config::{from_records, ResponseKind};
use probation_check::drive::{added_sheet_id, retrieve_sheet_titles, SpreadsheetClient};
use probation_check::endpoints::{
    append_values_url, batch_get_url, batch_update_url, project_content_url, projects_url, spreadsheet_url,
    update_values_url,
};
use probation_check::sheets::basic_chart::{BasicChartType, GridRange};
use probation_check::sheets::spreadsheets::{Sheet, SheetProperties, Spreadsheet};
use probation_check::sheets::spreadsheets_batch_update::{AddSheetResponse, BatchUpdateResponse, Response};
use probation_check::sheets::spreadsheets_values::{MajorDimension, SpreadsheetValueRange};
use probation_check::summary::Summary;
use probation_check::survey::Responses;

fn strings(cells: &[&str]) -> Vec<String> {
    cells.iter().map(|c| c.to_string()).collect()
}

fn properties(title: &str, sheet_id: Option<u64>) -> SheetProperties {
    SheetProperties {
        sheet_id,
        title: title.to_string(),
        index: None,
        sheet_type: None,
        grid_properties: None,
        hidden: None,
        right_to_left: None,
    }
}

fn reply(sheet_id: Option<u64>) -> BatchUpdateResponse {
    BatchUpdateResponse {
        spreadsheet_id: "s".to_string(),
        replies: vec![Response { add_sheet: Some(AddSheetResponse { properties: properties("Summary", sheet_id) }), add_chart: None }],
        updated_spreadsheet: Spreadsheet { spreadsheet_id: "s".to_string(), sheets: Vec::new(), spreadsheet_url: String::new() },
    }
}

#[test]
fn chart_reads_header_and_two_rows() {
    let update = add_summary_chart(7, "Chart Results".to_string());
    assert_eq!(update.requests.len(), 1);
    assert!(update.requests[0].add_sheet.is_none());
    let chart = &update.requests[0].add_chart.as_ref().unwrap().chart;
    assert!(chart.position.new_sheet);
    assert_eq!(chart.spec.title.as_deref(), Some("Chart Results"));
    let basic = chart.spec.basic_chart.as_ref().unwrap();
    assert_eq!(basic.chart_type, BasicChartType::Column);
    let range = |row: u64| GridRange { sheet_id: 7, start_row_index: row, end_row_index: row + 1, start_column_index: 0, end_column_index: 13 };
    assert_eq!(basic.domains[0].domain.source_range.sources, vec![range(0)]);
    assert_eq!(basic.series.len(), 2);
    assert_eq!(basic.series[0].series.source_range.sources, vec![range(1)]);
    assert_eq!(basic.series[1].series.source_range.sources, vec![range(2)]);
    assert!(!update.include_spreadsheet_in_response);
}

#[test]
fn summary_is_sent_as_rows() {
    let client = SpreadsheetClient::new("tok");
    assert_eq!(client.access_token(), "tok");
    let mut summary = Summary::new();
    let mut g = Responses::new("team".to_string(), "G".to_string());
    g.write("3");
    summary.set_by_kind(&ResponseKind::Grade, vec![g]);
    let ranges = client.save_summary("Chart and Summary", summary);
    assert_eq!(ranges.len(), 2);
    assert_eq!(ranges[0].range, "Chart and Summary");
    assert_eq!(ranges[0].major_dimension, MajorDimension::Rows);
    assert_eq!(ranges[0].values, vec![strings(&["Data", "G"]), strings(&["team", "3.0"])]);
    assert!(ranges[1].values.is_empty());
}

#[test]
fn summary_sheet_is_requested_and_its_id_read_back() {
    let client = SpreadsheetClient::new("tok");
    let update = client.add_summary_sheet("Chart and Summary");
    assert_eq!(update.requests.len(), 1);
    assert_eq!(update.requests[0].add_sheet.as_ref().unwrap().properties.title, "Chart and Summary");
    assert!(update.include_spreadsheet_in_response);
    assert_eq!(added_sheet_id(&reply(Some(42))), Some(42));
    assert_eq!(added_sheet_id(&reply(None)), None);
    let mut empty = reply(Some(1));
    empty.replies.clear();
    assert_eq!(added_sheet_id(&empty), None);
}

#[test]
fn sheet_titles_in_order() {
    let sheets = vec![Sheet { properties: properties("A", None) }, Sheet { properties: properties("B", Some(2)) }];
    assert_eq!(retrieve_sheet_titles(&sheets), strings(&["A", "B"]));
}

#[test]
fn value_range_grows_by_rows() {
    let mut r = SpreadsheetValueRange { range: "x".to_string(), major_dimension: MajorDimension::Rows, values: Vec::new() };
    r.add_value(strings(&["a", "b"]));
    assert_eq!(r.values, vec![strings(&["a", "b"])]);
}

#[test]
fn form_script_holds_the_values() {
    let t = Template::new(
        "team".to_string(),
        "Ann".to_string(),
        "Lee".to_string(),
        "probation".to_string(),
        "dir42".to_string(),
        "About Ann".to_string(),
        strings(&["Listens", "Speaks"]),
        strings(&["Strengths"]),
    );
    let code = t.code();
    assert!(code.starts_with("function createForm() {\n"));
    assert!(code.contains("var cPersonName = \"Ann\";"));
    assert!(code.contains("var cPersonSurname = \"Lee\";"));
    assert!(code.contains("var folderId = \"dir42\";"));
    assert!(code.contains("var item = \"team: ##name## ##surname## - ##occasion##\""));
    assert!(code.contains("var qs = [\"Listens\",\"Speaks\"];"));
    assert!(code.contains("var text_qs = [\"Strengths\"];"));
    assert!(code.ends_with("}\n"));
}

#[test]
fn project_and_content_bodies() {
    let p = new_project("team-Ann".to_string());
    assert_eq!(p.title.as_deref(), Some("team-Ann"));
    assert!(p.script_id.is_none());
    let c = script_content("sid", "code".to_string());
    assert_eq!(c.script_id, "sid");
    assert_eq!(c.files.len(), 2);
    assert_eq!(c.files[0].name, "create_survey");
    assert_eq!(c.files[0].file_type, FileType::ServerJs);
    assert_eq!(c.files[0].source, "code");
    assert_eq!(c.files[1].name, "appsscript");
    assert_eq!(c.files[1].file_type, FileType::Json);
    assert_eq!(c.files[1].source, MANIFEST);
}

#[test]
fn commands_by_name() {
    assert_eq!(Cmd::from_name("Generate"), Some(Cmd::Generate));
    assert_eq!(Cmd::from_name("EVAL"), Some(Cmd::Evaluate));
    assert_eq!(Cmd::from_name("evaluate"), None);
    assert_eq!(project_title("team", "Ann", "Lee", "probation"), "team-Ann-Lee-probation");
}

#[test]
fn questions_for_a_form() {
    let ts = from_records(
        &vec![
            strings(&["Team", "grade", "C", "Does {name} listen?", "1"]),
            strings(&["other", "grade", "C", "Skip", "1"]),
            strings(&["TEAM", "text", "S", "Strengths", "0"]),
            strings(&["ÜBER", "grade", "C", "Unicode {name}", "1"]),
        ],
        &[("{name}", "Ann")],
    )
    .unwrap();
    assert_eq!(config_questions(&ts, ResponseKind::Grade, "team"), strings(&["Does Ann listen?"]));
    assert_eq!(config_questions(&ts, ResponseKind::Text, "Team"), strings(&["Strengths"]));
    assert_eq!(config_questions(&ts, ResponseKind::Grade, "über"), strings(&["Unicode Ann"]));
    let kinds = strings(&["team", "other", "team", "über"]);
    assert_eq!(select_questions(&ts, &kinds, ResponseKind::Grade, "team"), strings(&["Does Ann listen?"]));
}

#[test]
fn service_addresses() {
    assert_eq!(spreadsheet_url("s1", "t"), "https://sheets.googleapis.com/v4/spreadsheets/s1?access_token=t");
    assert_eq!(batch_update_url("s1", "t"), "https://sheets.googleapis.com/v4/spreadsheets/s1:batchUpdate?access_token=t");
    assert_eq!(
        batch_get_url("s1", &strings(&["A", "B"]), "t"),
        "https://sheets.googleapis.com/v4/spreadsheets/s1/values:batchGet?ranges=A&ranges=B&majorDimension=COLUMNS&access_token=t"
    );
    assert_eq!(
        update_values_url("s1", "R", "t"),
        "https://sheets.googleapis.com/v4/spreadsheets/s1/values/R?access_token=t&valueInputOption=USER_ENTERED"
    );
    assert_eq!(
        append_values_url("s1", "R", "t"),
        "https://sheets.googleapis.com/v4/spreadsheets/s1/values/R:append?access_token=t&valueInputOption=USER_ENTERED"
    );
    assert_eq!(projects_url("t"), "https://script.googleapis.com/v1/projects?access_token=t");
    assert_eq!(project_content_url("p", "t"), "https://script.googleapis.com/v1/projects/p/content?access_token=t");
}
