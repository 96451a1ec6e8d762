use todo_txt::{parse_todo, TodoError};

#[test]
fn test_parse_simple_todo() {
    let todo = parse_todo("Call Mom").unwrap();
    assert_eq!(todo.description, "Call Mom");
    assert!(!todo.completed);
    assert!(todo.priority.is_none());
}

#[test]
fn test_parse_todo_with_priority() {
    let todo = parse_todo("(A) Call Mom").unwrap();
    assert_eq!(todo.description, "Call Mom");
    assert!(todo.priority.is_some());
    assert_eq!(todo.priority.unwrap().as_char(), 'A');
}

#[test]
fn test_parse_todo_with_date() {
    let todo = parse_todo("2024-11-03 Call Mom").unwrap();
    assert_eq!(todo.description, "Call Mom");
    assert!(todo.creation_date.is_some());
}

#[test]
fn test_parse_todo_with_priority_and_date() {
    let todo = parse_todo("(A) 2024-11-03 Call Mom").unwrap();
    assert_eq!(todo.description, "Call Mom");
    assert!(todo.priority.is_some());
    assert!(todo.creation_date.is_some());
}

#[test]
fn test_parse_todo_with_context_and_project() {
    let todo = parse_todo("(A) Call Mom +Family @phone").unwrap();
    assert_eq!(todo.description, "Call Mom");
    assert!(todo.has_context("phone"));
    assert!(todo.has_project("Family"));
}

#[test]
fn test_parse_completed_todo() {
    let todo = parse_todo("x 2024-11-03 2024-11-01 Call Mom").unwrap();
    assert!(todo.completed);
    assert!(todo.completion_date.is_some());
    assert!(todo.creation_date.is_some());
    assert_eq!(todo.description, "Call Mom");
}

#[test]
fn test_parse_todo_with_tags() {
    let todo = parse_todo("(A) Submit report due:2024-11-10 +Work").unwrap();
    assert_eq!(todo.description, "Submit report");
    assert_eq!(todo.get_tag("due"), Some(&"2024-11-10".to_string()));
    assert!(todo.has_project("Work"));
}

#[test]
fn test_parse_complex_todo() {
    let todo =
        parse_todo("(A) 2024-11-01 Call Mom +Family +PeaceLoveAndHappiness @iphone @phone")
            .unwrap();
    assert_eq!(todo.description, "Call Mom");
    assert_eq!(todo.priority.unwrap().as_char(), 'A');
    assert!(todo.creation_date.is_some());
    assert_eq!(todo.projects.len(), 2);
    assert_eq!(todo.contexts.len(), 2);
}

#[test]
fn test_parse_email_in_description() {
    let todo = parse_todo("Email SoAndSo at soandso@example.com").unwrap();
    assert_eq!(todo.description, "Email SoAndSo at soandso@example.com");
    assert_eq!(todo.contexts.len(), 0);
}

#[test]
fn test_parse_empty_line() {
    assert!(parse_todo("").is_err());
    assert!(parse_todo("   ").is_err());
}

#[test]
fn test_parse_empty_line_reports_parse_error() {
    for s in ["", " ", "   ", "\t", " \t \r ", "\u{a0}", "\u{a0} \u{2003}\u{3000}", "\u{85}"] {
        assert!(s.trim().is_empty());
        match parse_todo(s) {
            Err(TodoError::ParseError(l)) => assert_eq!(l, s),
            other => panic!("expected ParseError, got {:?}", other),
        }
    }
}

#[test]
fn test_unicode_whitespace_delimits_tokens() {
    let todo = parse_todo("(A)\u{a0}Call\u{2003}Mom\u{3000}+Family").unwrap();
    assert_eq!(todo.description, "Call Mom");
    assert_eq!(todo.priority.unwrap().as_char(), 'A');
    assert!(todo.has_project("Family"));
}

#[test]
fn test_parse_tags_only_line_fails() {
    match parse_todo("due:2024-11-10") {
        Err(TodoError::ParseError(l)) => assert_eq!(l, "due:2024-11-10"),
        other => panic!("expected ParseError, got {:?}", other),
    }
    assert!(parse_todo("due:2024-11-10 owner:me").is_err());
}

#[test]
fn test_parse_structured_example() {
    let todo = parse_todo("(B) 2024-11-01 Buy groceries +Shopping @store").unwrap();
    assert_eq!(todo.description, "Buy groceries");
    assert_eq!(todo.priority.unwrap().as_char(), 'B');
    let d = todo.creation_date.unwrap();
    assert_eq!((d.year(), d.month(), d.day()), (2024, 11, 1));
    assert_eq!(todo.projects, vec!["Shopping".to_string()]);
    assert_eq!(todo.contexts, vec!["store".to_string()]);
}

#[test]
fn test_parse_completed_dates_in_order() {
    let todo = parse_todo("x 2024-11-03 2024-11-01 Call Mom").unwrap();
    assert!(todo.completed);
    let cd = todo.completion_date.unwrap();
    assert_eq!((cd.year(), cd.month(), cd.day()), (2024, 11, 3));
    let cr = todo.creation_date.unwrap();
    assert_eq!((cr.year(), cr.month(), cr.day()), (2024, 11, 1));
    assert_eq!(todo.description, "Call Mom");
}

#[test]
fn test_parse_invalid_date_falls_to_description() {
    let todo = parse_todo("2024-13-40 Call Mom").unwrap();
    assert!(todo.creation_date.is_none());
    assert_eq!(todo.description, "2024-13-40 Call Mom");
}

#[test]
fn test_parse_invalid_priority_falls_to_description() {
    let todo = parse_todo("(a) Call Mom").unwrap();
    assert!(todo.priority.is_none());
    assert_eq!(todo.description, "(a) Call Mom");
}

#[test]
fn test_parse_duplicate_tag_key_last_wins() {
    let todo = parse_todo("Task due:2024-01-01 due:2024-02-02").unwrap();
    assert_eq!(todo.get_tag("due"), Some(&"2024-02-02".to_string()));
    assert_eq!(todo.tags.len(), 1);
}

#[test]
fn test_parse_completed_without_dates() {
    let todo = parse_todo("x Call Mom").unwrap();
    assert!(todo.completed);
    assert!(todo.completion_date.is_none());
    assert!(todo.creation_date.is_none());
    assert_eq!(todo.description, "Call Mom");
}
