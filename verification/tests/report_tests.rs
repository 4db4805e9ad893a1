use deadlock_detector::report::bug_report_json;

#[test]
fn report_lists_every_bug_position() {
    let bugs = vec![(String::from("src/main.rs"), 3usize), (String::from("src/lib.rs"), 12usize)];
    let expected = "{\n  \"bug_infos\": [\n    {\n      \"file_name\": \"src/main.rs\",\n      \"line_number\": 3\n    },\n    {\n      \"file_name\": \"src/lib.rs\",\n      \"line_number\": 12\n    }\n  ]\n}";
    assert_eq!(bug_report_json(&bugs), Some(expected.to_string()));
}

#[test]
fn report_without_bugs_has_an_empty_list() {
    let bugs: Vec<(String, usize)> = Vec::new();
    assert_eq!(bug_report_json(&bugs), Some("{\n  \"bug_infos\": []\n}".to_string()));
}

#[test]
fn report_escapes_file_names() {
    let bugs = vec![(String::from("a\"b.rs"), 1usize)];
    let text = bug_report_json(&bugs).unwrap();
    assert!(text.contains("\"file_name\": \"a\\\"b.rs\""));
}
