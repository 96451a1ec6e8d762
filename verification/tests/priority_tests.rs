use todo_txt::{Priority, TodoError};

#[test]
fn test_priority_new() {
    assert!(Priority::new('A').is_some());
    assert!(Priority::new('Z').is_some());
    assert!(Priority::new('a').is_none());
    assert!(Priority::new('1').is_none());
}

#[test]
fn test_priority_display() {
    let priority = Priority::new('A').unwrap();
    assert_eq!(priority.to_text(), "(A)");
}

#[test]
fn test_priority_ord() {
    let a = Priority::new('A').unwrap();
    let b = Priority::new('B').unwrap();
    assert!(a < b);
}

#[test]
fn test_priority_token_round_trip_all_letters() {
    for c in 'A'..='Z' {
        let p = Priority::new(c).unwrap();
        let parsed = Priority::parse_token(&p.to_text()).unwrap();
        assert_eq!(parsed, p);
        assert_eq!(parsed.as_char(), c);
    }
}

#[test]
fn test_priority_construction_fails_outside_letters() {
    for c in ['a', 'z', '0', '9', '(', ' ', '@', '[', '`'] {
        assert!(Priority::new(c).is_none());
    }
}

#[test]
fn test_priority_parse_token_rejects_malformed() {
    for s in ["", "A", "(A", "A)", "(a)", "(1)", "((A))", "(AB)", " (A)"] {
        match Priority::parse_token(s) {
            Err(TodoError::InvalidPriority(t)) => assert_eq!(t, s),
            other => panic!("expected InvalidPriority, got {:?}", other),
        }
    }
}
