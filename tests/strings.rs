use probation_check::text::{chars_of, eq_ascii_case_insensitive, join_with, replace, str_contains};

#[test]
fn finds_substrings() {
    assert!(str_contains("he communicates well", "communicates"));
    assert!(str_contains("abc", ""));
    assert!(str_contains("abc", "abc"));
    assert!(!str_contains("ab", "abc"));
    assert!(!str_contains("communicate", "communicates"));
    assert!(str_contains("größer als", "ßer"));
}

#[test]
fn replaces_every_occurrence() {
    assert_eq!(replace("Does {name} listen? {name}!", "{name}", "Ann"), "Does Ann listen? Ann!");
    assert_eq!(replace("aaa", "aa", "b"), "ba");
    assert_eq!(replace("abc", "x", "y"), "abc");
    assert_eq!(replace("ab", "", "-"), "-a-b-");
    assert_eq!(replace("", "", "-"), "-");
    assert_eq!(replace("über", "ü", "ue"), "ueber");
}

#[test]
fn joins_with_separator() {
    let parts = vec!["a".to_string(), "b".to_string(), "c".to_string()];
    assert_eq!(join_with(&parts, "\n"), "a\nb\nc");
    assert_eq!(join_with(&parts[..1], ", "), "a");
    assert_eq!(join_with(&[], ", "), "");
}

#[test]
fn compares_ignoring_ascii_case() {
    assert!(eq_ascii_case_insensitive("GrAdE", "grade"));
    assert!(!eq_ascii_case_insensitive("grades", "grade"));
    assert!(!eq_ascii_case_insensitive("Ü", "ü"));
    assert_eq!(chars_of("aé"), vec!['a', 'é']);
}
