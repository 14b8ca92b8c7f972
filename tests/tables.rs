use probation_check::config::ResponseKind;
use probation_check::evaluate::summarize;
use probation_check::config::from_records;
use probation_check::sheets::spreadsheets_values::{MajorDimension, SpreadsheetValueRange};
use probation_check::summary::{fill_summary_rows, generate_summary_rows, KeyField, Summary, SummaryRows};
use probation_check::survey::{Responses, Survey};

fn strings(cells: &[&str]) -> Vec<String> {
    cells.iter().map(|c| c.to_string()).collect()
}

fn group(label: &str, category: &str, vals: &[&str]) -> Responses {
    let mut r = Responses::new(label.to_string(), category.to_string());
    for v in vals {
        r.write(v);
    }
    r
}

#[test]
fn header_cells_are_added_once() {
    let mut rows = SummaryRows::new();
    rows.add_header("Data", "A");
    rows.add_header("Data", "B");
    rows.add_header("Data", "A");
    rows.add_cell("x", "1");
    rows.add_cell("x", "2");
    rows.add_cell("x", "2");
    assert_eq!(rows.rows(), vec![strings(&["Data", "A", "B"]), strings(&["x", "1", "2", "2"])]);
}

#[test]
fn grade_header_names_a_shared_category_once() {
    let data = vec![group("peer", "Listening", &["8"]), group("lead", "Listening", &["6", "7"])];
    let rows = generate_summary_rows(&ResponseKind::Grade, &data).unwrap().rows();
    assert_eq!(
        rows,
        vec![strings(&["Data", "Listening"]), strings(&["peer", "8.0"]), strings(&["lead", "6.5"])]
    );
    assert_eq!(rows[0].iter().filter(|c| c.as_str() == "Listening").count(), 1);
}

#[test]
fn text_table_puts_labels_across() {
    let data = vec![group("peer", "Strengths", &["calm", "kind"]), group("lead", "Strengths", &["clear"])];
    let rows = generate_summary_rows(&ResponseKind::Text, &data).unwrap().rows();
    assert_eq!(
        rows,
        vec![strings(&["Data", "peer", "lead"]), strings(&["Strengths", "calm\nkind", "clear"])]
    );
    assert!(generate_summary_rows(&ResponseKind::Discriminator, &data).is_none());
}

#[test]
fn groups_without_a_summary_show_no_data() {
    let data = vec![group("peer", "Listening", &["eight"]), group("peer", "Speaking", &[])];
    let rows = fill_summary_rows(&ResponseKind::Grade, &data, KeyField::Category, KeyField::AssessmentKind).rows();
    assert_eq!(rows, vec![strings(&["Data", "Listening", "Speaking"]), strings(&["peer", "no data", "no data"])]);
}

#[test]
fn summary_holds_grades_then_texts() {
    let mut summary = Summary::new();
    summary.set_by_kind(&ResponseKind::Text, vec![group("team", "Notes", &["ok"])]);
    summary.set_by_kind(&ResponseKind::Grade, vec![group("team", "G", &["4"])]);
    summary.set_by_kind(&ResponseKind::Discriminator, vec![group("team", "X", &["1"])]);
    let tables = summary.generate_rows();
    assert_eq!(tables.len(), 2);
    assert_eq!(tables[0].rows(), vec![strings(&["Data", "G"]), strings(&["team", "4.0"])]);
    assert_eq!(tables[1].rows(), vec![strings(&["Data", "team"]), strings(&["Notes", "ok"])]);
}

#[test]
fn repeated_scans_give_the_same_row_order() {
    let ts = from_records(
        &vec![strings(&["team", "grade", "B", "b?", "1"]), strings(&["team", "grade", "A", "a?", "1"])],
        &[],
    )
    .unwrap();
    let input = vec![strings(&["b?", "1", "2"]), strings(&["a?", "3", "4"])];
    let keys = |data: &Vec<Responses>| -> Vec<String> {
        generate_summary_rows(&ResponseKind::Grade, data).unwrap().rows().iter().map(|r| r[0].clone()).collect()
    };
    let first = Survey::new(&ts).scan(&input).unwrap();
    let second = Survey::new(&ts).scan(&input).unwrap();
    assert_eq!(keys(&first.responses), keys(&second.responses));
    assert_eq!(keys(&first.responses), strings(&["Data", "team"]));
}

#[test]
fn summarize_scans_each_kind_with_the_discriminators() {
    let ts = from_records(
        &vec![
            strings(&["team", "discriminator", "Role", "relation", "1"]),
            strings(&["team", "grade", "Communication", "communicates well", "2"]),
            strings(&["team", "text", "Strengths", "Strengths", "0"]),
        ],
        &[],
    )
    .unwrap();
    let sheet = SpreadsheetValueRange {
        range: "Form".to_string(),
        major_dimension: MajorDimension::Columns,
        values: vec![
            strings(&["Timestamp", "t"]),
            strings(&["Email", "e"]),
            strings(&["relation", "peer"]),
            strings(&["communicates well", "8"]),
            strings(&["Strengths", "clear writer"]),
        ],
    };
    let tables = summarize(&ts, &[sheet]).unwrap().generate_rows();
    assert_eq!(tables[0].rows(), vec![strings(&["Data", "Communication"]), strings(&["peer", "16.0"])]);
    assert_eq!(tables[1].rows(), vec![strings(&["Data", "peer"]), strings(&["Strengths", "clear writer"])]);
}
