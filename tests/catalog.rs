use probation_check::config::{from_records, read, ConfigError, EvalError, QuestionConfig, ResponseKind};
use probation_check::decimal::Decimal;

fn strings(cells: &[&str]) -> Vec<String> {
    cells.iter().map(|c| c.to_string()).collect()
}

fn records(rows: &[&[&str]]) -> Vec<Vec<String>> {
    rows.iter().map(|r| strings(r)).collect()
}

fn one(row: &[&str]) -> Result<Vec<QuestionConfig>, ConfigError> {
    from_records(&records(&[row]), &[("{name}", "Ann")])
}

#[test]
fn loads_rows_and_fills_placeholders() {
    let qs = from_records(
        &records(&[
            &["team", "GRADE", "Listening", "Does {name} listen to {name}?", "0.5"],
            &["team", "Text", "Strengths", "Strengths of {name}", "0", "extra"],
            &["probation", "discriminator", "Role", "Your role", "1"],
        ]),
        &[("{name}", "Ann"), ("Ann", "Bo")],
    )
    .unwrap();
    assert_eq!(qs.len(), 3);
    assert_eq!(qs[0].assessment_kind, "team");
    assert_eq!(qs[0].response_kind, ResponseKind::Grade);
    assert_eq!(qs[0].category, "Listening");
    assert_eq!(qs[0].template_raw, "Does {name} listen to {name}?");
    assert_eq!(qs[0].template_final, "Does Bo listen to Bo?");
    assert_eq!(qs[0].weight, Decimal { mantissa: 5, scale: 1 });
    assert_eq!(qs[1].response_kind, ResponseKind::Text);
    assert_eq!(qs[2].response_kind, ResponseKind::Discriminator);
}

#[test]
fn reports_the_first_bad_row() {
    assert_eq!(one(&["team", "grade", "C", "t"]).unwrap_err(), ConfigError::MissingColumn { row: 0 });
    assert_eq!(one(&["team", "score", "C", "t", "1"]).unwrap_err(), ConfigError::UnknownResponseKind { row: 0 });
    assert_eq!(one(&["team", "grade", "C", "t", "two"]).unwrap_err(), ConfigError::InvalidWeight { row: 0 });
    assert_eq!(one(&["team", "grade", "C", "", "1"]).unwrap_err(), ConfigError::EmptyTemplate { row: 0 });
    assert_eq!(one(&["team", "grade", "C", "{name}", "1"]).unwrap().len(), 1);
    assert_eq!(one(&["team", "grade", "C", "t", ".5"]).unwrap()[0].weight, Decimal { mantissa: 5, scale: 1 });
    assert_eq!(one(&["team", "grade", "C", "t", "2E-1"]).unwrap()[0].weight, Decimal { mantissa: 2, scale: 1 });
    let two = from_records(
        &records(&[&["team", "grade", "C", "t", "1"], &["team", "grade", "C", "t", "x"], &["team", "x", "C", "t", "1"]]),
        &[],
    );
    assert_eq!(two.unwrap_err(), ConfigError::InvalidWeight { row: 1 });
}

#[test]
fn reads_csv_text() {
    let text = "AssessmentKind,ResponseKind,Category,Template,Weight\nteam,grade,Communication,\"talks, to {name}\",2\n";
    let qs = read(text.as_bytes(), &[("{name}", "Ann")]).unwrap();
    assert_eq!(qs.len(), 1);
    assert_eq!(qs[0].category, "Communication");
    assert_eq!(qs[0].template_final, "talks, to Ann");
    assert_eq!(qs[0].weight, Decimal { mantissa: 2, scale: 0 });
}

#[test]
fn refuses_malformed_csv() {
    let text = "AssessmentKind,ResponseKind,Category,Template,Weight\nteam,grade,C,t,1\nteam,grade\n";
    assert_eq!(read(text.as_bytes(), &[]).unwrap_err(), ConfigError::Csv);
    let short = "a,b\nteam,grade\n";
    assert_eq!(read(short.as_bytes(), &[]).unwrap_err(), ConfigError::MissingColumn { row: 0 });
}

#[test]
fn evaluates_answers_by_kind() {
    let qs = from_records(
        &records(&[&["k", "grade", "C", "t", "2"], &["k", "grade", "C", "t", "0.5"], &["k", "text", "C", "t", "0"]]),
        &[],
    )
    .unwrap();
    assert_eq!(qs[0].eval_answer("8"), Ok("16".to_string()));
    assert_eq!(qs[1].eval_answer("3"), Ok("1.5".to_string()));
    assert_eq!(qs[1].eval_answer("-0.25"), Ok("-0.125".to_string()));
    assert_eq!(qs[0].eval_answer("eight"), Err(EvalError::NonNumericGrade));
    assert_eq!(qs[0].eval_answer("1e3"), Ok("2000".to_string()));
    assert_eq!(qs[1].eval_answer(".5"), Ok("0.25".to_string()));
    assert_eq!(qs[0].eval_answer("5."), Ok("10".to_string()));
    assert_eq!(qs[2].eval_answer("eight"), Ok("eight".to_string()));
}

#[test]
fn matches_filled_or_configured_template() {
    let qs = from_records(&records(&[&["k", "grade", "C", "Does {name} listen?", "1"]]), &[("{name}", "Ann")]).unwrap();
    assert!(qs[0].match_template("1. Does Ann listen? (1-10)"));
    assert!(qs[0].match_template("Does {name} listen?"));
    assert!(!qs[0].match_template("Does Bo listen?"));
}

#[test]
fn summarises_values_by_kind() {
    let vals = strings(&["8", "9"]);
    assert_eq!(ResponseKind::Grade.process_data(&vals), Some("8.5".to_string()));
    assert_eq!(ResponseKind::Text.process_data(&vals), Some("8\n9".to_string()));
    assert_eq!(ResponseKind::Discriminator.process_data(&vals), None);
    assert_eq!(ResponseKind::Grade.process_data(&[]), None);
    assert_eq!(ResponseKind::Text.process_data(&[]), None);
    assert_eq!(ResponseKind::Grade.name(), "grade");
    assert_eq!(ResponseKind::from_name("DISCRIMINATOR"), Some(ResponseKind::Discriminator));
    assert_eq!(ResponseKind::from_name("grades"), None);
}
