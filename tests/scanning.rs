use probation_check::config::{from_records, QuestionConfig};
use probation_check::sheets::spreadsheets_values::{MajorDimension, SpreadsheetValueRange};
use probation_check::survey::{Responses, ScanError, Survey};

fn strings(cells: &[&str]) -> Vec<String> {
    cells.iter().map(|c| c.to_string()).collect()
}

fn rows(rs: &[&[&str]]) -> Vec<Vec<String>> {
    rs.iter().map(|r| strings(r)).collect()
}

fn catalog(rs: &[&[&str]]) -> Vec<QuestionConfig> {
    from_records(&rows(rs), &[("{name}", "Ann")]).unwrap()
}

fn groups(rs: &[Responses]) -> Vec<(String, String, Vec<String>)> {
    rs.iter().map(|r| (r.assessment_kind.clone(), r.category_name.clone(), r.read().clone())).collect()
}

fn g(label: &str, category: &str, vals: &[&str]) -> (String, String, Vec<String>) {
    (label.to_string(), category.to_string(), strings(vals))
}

#[test]
fn lookup_finds_the_first_matching_template() {
    let ts = catalog(&[
        &["team", "grade", "A", "Does {name} talk", "1"],
        &["team", "grade", "B", "talk", "1"],
        &["team", "grade", "C", "listen", "1"],
    ]);
    let survey = Survey::new(&ts);
    assert_eq!(survey.find_config_template("Does Ann talk?"), Some(0));
    assert_eq!(survey.find_config_template("Does {name} talk?"), Some(0));
    assert_eq!(survey.find_config_template("Does Bo talk?"), Some(1));
    assert_eq!(survey.find_config_template("Does Bo talk?"), Some(1));
    assert_eq!(survey.find_config_template("Sing"), None);
}

#[test]
fn first_template_in_catalog_order_wins() {
    let ts = catalog(&[
        &["team", "text", "General", "listen", "1"],
        &["team", "grade", "Listening", "Does Ann listen", "1"],
    ]);
    let report = Survey::new(&ts).scan(&rows(&[&["Does Ann listen?", "7"]])).unwrap();
    assert_eq!(groups(&report.responses), vec![g("team", "General", &["7"])]);
    let again = Survey::new(&ts).scan(&rows(&[&["Does Ann listen?", "7"]])).unwrap();
    assert_eq!(groups(&again.responses), groups(&report.responses));
}

#[test]
fn unmatched_rows_are_skipped_and_recorded() {
    let ts = catalog(&[&["team", "grade", "Listening", "listen", "1"]]);
    let report = Survey::new(&ts)
        .scan(&rows(&[&["Timestamp", "x"], &["Do you listen?", "4", "6"], &["Other", "1"]]))
        .unwrap();
    assert_eq!(report.skipped, vec![0, 2]);
    assert_eq!(groups(&report.responses), vec![g("team", "Listening", &["4", "6"])]);
}

#[test]
fn discriminator_relabels_later_rows_in_its_column() {
    let ts = catalog(&[
        &["team", "discriminator", "Role", "Your relation", "1"],
        &["team", "grade", "Listening", "listen", "2"],
    ]);
    let report = Survey::new(&ts)
        .scan(&rows(&[
            &["Do you listen first?", "1", "2", "3"],
            &["Your relation to Ann", "peer", "lead"],
            &["Do you listen?", "4", "5", "6"],
        ]))
        .unwrap();
    assert_eq!(
        groups(&report.responses),
        vec![g("team", "Listening", &["2", "4", "6", "12"]), g("peer", "Listening", &["8"]), g("lead", "Listening", &["10"])]
    );
}

#[test]
fn a_later_discriminator_overrides_an_earlier_one() {
    let ts = catalog(&[
        &["team", "discriminator", "Role", "relation", "1"],
        &["team", "text", "Notes", "notes", "0"],
    ]);
    let report = Survey::new(&ts)
        .scan(&rows(&[&["relation", "peer", "lead"], &["relation", "report"], &["notes", "a", "b"]]))
        .unwrap();
    assert_eq!(groups(&report.responses), vec![g("report", "Notes", &["a"]), g("lead", "Notes", &["b"])]);
}

#[test]
fn groups_keep_first_seen_order() {
    let ts = catalog(&[
        &["team", "grade", "B", "second", "1"],
        &["team", "grade", "A", "first", "1"],
    ]);
    let report = Survey::new(&ts)
        .scan(&rows(&[&["second", "1"], &["first", "2"], &["second", "3"]]))
        .unwrap();
    assert_eq!(groups(&report.responses), vec![g("team", "B", &["1", "3"]), g("team", "A", &["2"])]);
}

#[test]
fn scan_errors_name_row_and_column() {
    let ts = catalog(&[&["team", "text", "T", "note", "0"], &["team", "grade", "G", "grade", "1"]]);
    let survey = Survey::new(&ts);
    assert_eq!(
        survey.scan(&rows(&[&["note", "a"], &["grade", "1", "two"]])).err(),
        Some(ScanError::NonNumericGrade { row: 1, column: 1, template: 1 })
    );
    assert_eq!(survey.scan(&rows(&[&["note", "a"], &[]])).err(), Some(ScanError::EmptyRow { row: 1 }));
}

#[test]
fn scan_all_reads_every_row_of_every_range() {
    let ts = catalog(&[&["team", "grade", "G", "grade", "1"]]);
    let first = SpreadsheetValueRange {
        range: "Form responses".to_string(),
        major_dimension: MajorDimension::Columns,
        values: rows(&[&["Timestamp", "t1"], &["Email", "e1"], &["grade", "3"]]),
    };
    let second = SpreadsheetValueRange {
        range: "More".to_string(),
        major_dimension: MajorDimension::Columns,
        values: rows(&[&["grade", "5"]]),
    };
    let report = Survey::new(&ts).scan_all(&[first, second]).unwrap();
    assert_eq!(groups(&report.responses), vec![g("team", "G", &["3", "5"])]);
    assert_eq!(report.skipped, vec![0, 1]);
}

#[test]
fn responses_collect_values_in_order() {
    let mut r = Responses::new("team".to_string(), "Listening".to_string());
    r.write("1");
    r.write("2");
    assert_eq!(r.read(), &strings(&["1", "2"]));
    assert_eq!(r.label(), "team");
    assert_eq!(r.category(), "Listening");
}
