use probation_check::config::ResponseKind;
use probation_check::skills::{less_than, parse_grade, EmployeeSkill, EmployeeSkills, SkillError};

fn rows(rs: &[&[&str]]) -> Vec<Vec<String>> {
    rs.iter().map(|r| r.iter().map(|c| c.to_string()).collect()).collect()
}

#[test]
fn reads_whole_number_grades() {
    assert_eq!(parse_grade("7"), Some(7));
    assert_eq!(parse_grade("+7"), Some(7));
    assert_eq!(parse_grade("007"), Some(7));
    assert_eq!(parse_grade("4294967295"), Some(u32::MAX));
    for s in ["", "+", "-1", "1.5", "4294967296", "seven", " 7"] {
        assert_eq!(parse_grade(s), None, "{}", s);
    }
}

#[test]
fn graded_skill_keeps_grades_and_texts() {
    let mut s = EmployeeSkill::new("Listening".to_string(), ResponseKind::Grade);
    assert_eq!(s.add_response("8"), Ok(()));
    assert_eq!(s.add_response("x"), Err(SkillError::InvalidGrade));
    assert_eq!(s.add_response("+9"), Ok(()));
    assert_eq!(s.grades(), &vec![8, 9]);
    assert_eq!(s.txt(), "8\n+9");
    let mut t = EmployeeSkill::new("Notes".to_string(), ResponseKind::Text);
    assert_eq!(t.add_response("fine"), Ok(()));
    assert!(t.grades().is_empty());
    assert_eq!(t.txt(), "fine");
}

#[test]
fn skills_are_grouped_and_ordered_by_name() {
    let es = EmployeeSkills::new(&rows(&[&["b", "t1"], &["a", "t2"], &["b", "t3"], &["B", "t4"]]), ResponseKind::Grade)
        .unwrap();
    let names: Vec<&str> = es.skills.iter().map(|s| s.name.as_str()).collect();
    assert_eq!(names, vec!["B", "a", "b"]);
    assert!(less_than("B", "a"));
    assert!(less_than("ab", "abc"));
    assert!(!less_than("abc", "abc"));
}

#[test]
fn skill_configuration_errors() {
    assert_eq!(EmployeeSkills::new(&rows(&[&["a", "t"], &[]]), ResponseKind::Text).err(), Some(SkillError::MissingCategory { row: 1 }));
    assert_eq!(EmployeeSkills::new(&rows(&[&["a"]]), ResponseKind::Text).err(), Some(SkillError::MissingTemplate { row: 0 }));
}

#[test]
fn scan_records_answers_of_matching_rows() {
    let mut es = EmployeeSkills::new(&rows(&[&["b", "listens"], &["a", "speaks"], &["b", "asks"]]), ResponseKind::Grade).unwrap();
    let count = es
        .scan(1, &rows(&[&["Timestamp", "t"], &["She asks well", "5", "6"], &["unrelated", "1"], &["He speaks", "7"]]))
        .unwrap();
    assert_eq!(count, 2);
    assert_eq!(es.skills[0].name, "a");
    assert_eq!(es.skills[0].grades(), &vec![7]);
    assert_eq!(es.skills[1].grades(), &vec![5, 6]);
    assert_eq!(es.scan(5, &rows(&[&["x"]])), Ok(0));
}

#[test]
fn scan_stops_at_the_first_error() {
    let mut es = EmployeeSkills::new(&rows(&[&["a", "speaks"]]), ResponseKind::Grade).unwrap();
    assert_eq!(es.scan(0, &rows(&[&["speaks", "1", "bad", "3"]])), Err(SkillError::InvalidGrade));
    assert_eq!(es.skills[0].grades(), &vec![1]);
    assert_eq!(es.scan(0, &rows(&[&["speaks", "2"], &[]])), Err(SkillError::MissingQuestion { row: 1 }));
    assert_eq!(es.skills[0].grades(), &vec![1, 2]);
}
