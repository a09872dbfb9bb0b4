use task_tracker::args::AddTaskArg;

#[test]
fn parses_title_and_true_flag() {
    let a = AddTaskArg::from_str("Buy milk,true").unwrap();
    assert_eq!(a.title, "Buy milk");
    assert!(a.high_priority);
}

#[test]
fn parses_title_and_false_flag() {
    let a = AddTaskArg::from_str("Write report,false").unwrap();
    assert_eq!(a.title, "Write report");
    assert!(!a.high_priority);
}

#[test]
fn trims_whitespace_around_both_segments() {
    let a = AddTaskArg::from_str("  Write report\t,  false ").unwrap();
    assert_eq!(a.title, "Write report");
    assert!(!a.high_priority);
}

#[test]
fn empty_title_is_accepted() {
    let a = AddTaskArg::from_str(",true").unwrap();
    assert_eq!(a.title, "");
    assert!(a.high_priority);
}

#[test]
fn value_without_comma_is_rejected() {
    let e = AddTaskArg::from_str("no comma here").unwrap_err();
    assert_eq!(e, "Expected format: title,bool");
}

#[test]
fn value_with_two_commas_is_rejected() {
    let e = AddTaskArg::from_str("a,b,true").unwrap_err();
    assert_eq!(e, "Expected format: title,bool");
}

#[test]
fn non_boolean_segment_is_rejected() {
    let e = AddTaskArg::from_str("task,maybe").unwrap_err();
    assert_eq!(e, "Invalid boolean");
}

#[test]
fn boolean_parsing_is_case_sensitive() {
    let e = AddTaskArg::from_str("task,TRUE").unwrap_err();
    assert_eq!(e, "Invalid boolean");
}
