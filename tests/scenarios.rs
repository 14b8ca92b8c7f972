use probation_check::config::{from_records, QuestionConfig, ResponseKind};
use probation_check::summary::Summary;
use probation_check::survey::Survey;

fn strings(cells: &[&str]) -> Vec<String> {
    cells.iter().map(|c| c.to_string()).collect()
}

fn catalog(rows: &[&[&str]], name: &str) -> Vec<QuestionConfig> {
    let records: Vec<Vec<String>> = rows.iter().map(|r| strings(r)).collect();
    from_records(&records, &[("{name}", name)]).expect("valid catalog")
}

fn of_kind(templates: &[QuestionConfig], kind: ResponseKind) -> Vec<QuestionConfig> {
    templates
        .iter()
        .filter(|t| t.response_kind == kind || t.response_kind == ResponseKind::Discriminator)
        .cloned()
        .collect()
}

#[test]
fn end_to_end_summary() {
    let templates = catalog(
        &[
            &["team", "grade", "Communication", "communicates well", "2"],
            &["team", "text", "Strengths", "Strengths", "0"],
        ],
        "Ann",
    );
    let rows = vec![strings(&["communicates well", "8"]), strings(&["Strengths", "clear writer"])];
    let mut summary = Summary::new();
    for kind in [ResponseKind::Grade, ResponseKind::Text] {
        let by_kind = of_kind(&templates, kind);
        let report = Survey::new(&by_kind).scan(&rows).expect("scan succeeds");
        summary.set_by_kind(&kind, report.responses);
    }
    let tables = summary.generate_rows();
    assert_eq!(tables.len(), 2);
    assert_eq!(tables[0].rows(), vec![strings(&["Data", "Communication"]), strings(&["team", "16.0"])]);
    assert_eq!(tables[1].rows(), vec![strings(&["Data", "team"]), strings(&["Strengths", "clear writer"])]);
}
