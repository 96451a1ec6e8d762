use todo_txt::{parse_todo, Date, Priority, Todo};

#[test]
fn test_new_todo() {
    let todo = Todo::new("Test task");
    assert!(!todo.completed);
    assert_eq!(todo.description, "Test task");
    assert!(todo.priority.is_none());
}

#[test]
fn test_complete_todo() {
    let mut todo = Todo::new("Test task");
    todo.complete();
    assert!(todo.completed);
    assert!(todo.completion_date.is_some());
}

#[test]
fn test_add_context_and_project() {
    let mut todo = Todo::new("Test task");
    todo.add_context("phone");
    todo.add_project("Work");

    assert!(todo.has_context("phone"));
    assert!(todo.has_project("Work"));
    assert!(!todo.has_context("email"));
}

#[test]
fn todo_test_with_priority() {
    let priority = Priority::new('A').unwrap();
    let todo = Todo::new("Test task").with_priority(priority);
    assert_eq!(todo.priority, Some(priority));
}

#[test]
fn test_display_simple_todo() {
    let todo = Todo::new("Call Mom");
    assert_eq!(todo.render(), "Call Mom");
}

#[test]
fn test_display_todo_with_priority() {
    let todo = Todo::new("Call Mom").with_priority(Priority::new('A').unwrap());
    assert_eq!(todo.render(), "(A) Call Mom");
}

#[test]
fn test_display_todo_with_date() {
    let date = Date::new(2024, 11, 3).unwrap();
    let todo = Todo::new("Call Mom").with_creation_date(date);
    assert_eq!(todo.render(), "2024-11-03 Call Mom");
}

#[test]
fn test_display_completed_todo() {
    let mut todo = Todo::new("Call Mom");
    todo.completion_date = Some(Date::new(2024, 11, 3).unwrap());
    todo.creation_date = Some(Date::new(2024, 11, 1).unwrap());
    todo.completed = true;
    assert_eq!(todo.render(), "x 2024-11-03 2024-11-01 Call Mom");
}

#[test]
fn test_display_todo_with_context_and_project() {
    let mut todo = Todo::new("Call Mom");
    todo.add_project("Family");
    todo.add_context("phone");
    assert_eq!(todo.render(), "Call Mom +Family @phone");
}

#[test]
fn test_display_todo_with_tags() {
    let mut todo = Todo::new("Submit report");
    todo.add_tag("due", "2024-11-10");
    assert_eq!(todo.render(), "Submit report due:2024-11-10");
}

#[test]
fn test_roundtrip_parse_and_display() {
    let original = "(A) 2024-11-01 Call Mom +Family @phone due:2024-11-10";
    let todo: Todo = original.parse().unwrap();
    let serialized = todo.render();

    assert!(serialized.contains("(A)"));
    assert!(serialized.contains("2024-11-01"));
    assert!(serialized.contains("Call Mom"));
    assert!(serialized.contains("+Family"));
    assert!(serialized.contains("@phone"));
    assert!(serialized.contains("due:2024-11-10"));
}

#[test]
fn test_roundtrip_preserves_incomplete_task() {
    let line = "(C) 2023-02-28 Water plants twice +Home +Garden @balcony due:2023-03-01 who:me";
    let todo = parse_todo(line).unwrap();
    let reparsed = parse_todo(&todo.render()).unwrap();
    assert_eq!(reparsed.completed, todo.completed);
    assert_eq!(reparsed.priority, todo.priority);
    assert_eq!(reparsed.creation_date, todo.creation_date);
    assert_eq!(reparsed.description, todo.description);
    assert_eq!(reparsed.contexts, todo.contexts);
    assert_eq!(reparsed.projects, todo.projects);
    assert_eq!(reparsed.tags, todo.tags);
    assert_eq!(todo.render(), line);
}

#[test]
fn test_roundtrip_preserves_duplicate_contexts() {
    let line = "Call Mom @phone @phone";
    let todo = parse_todo(line).unwrap();
    assert_eq!(todo.contexts.len(), 2);
    assert_eq!(todo.render(), line);
    assert_eq!(parse_todo(&todo.render()).unwrap().contexts.len(), 2);
}

#[test]
fn test_completed_render_hides_priority() {
    let mut todo = Todo::new("Ship release").with_priority(Priority::new('A').unwrap());
    todo.completed = true;
    let rendered = todo.render();
    assert_eq!(rendered, "x Ship release");
    assert!(!rendered.contains("(A)"));

    let mut with_none = Todo::new("Ship release");
    with_none.completed = true;
    assert_eq!(with_none.render(), rendered);
}

#[test]
fn test_uncomplete_clears_completion_date() {
    let mut todo = Todo::new("Test task");
    todo.complete();
    assert!(todo.completed && todo.completion_date.is_some());
    todo.uncomplete();
    assert!(!todo.completed);
    assert!(todo.completion_date.is_none());
}

#[test]
fn test_add_context_dedupes_but_parse_does_not() {
    let mut todo = Todo::new("Test task");
    todo.add_context("phone");
    todo.add_context("phone");
    assert_eq!(todo.contexts.len(), 1);

    let parsed = parse_todo("Test task @phone @phone").unwrap();
    assert_eq!(parsed.contexts.len(), 2);
}

#[test]
fn test_add_tag_overwrites_value() {
    let mut todo = Todo::new("Test task");
    todo.add_tag("due", "2024-01-01");
    todo.add_tag("due", "2024-02-02");
    assert_eq!(todo.get_tag("due"), Some(&"2024-02-02".to_string()));
    assert_eq!(todo.tags.len(), 1);
    assert!(todo.has_tag("due"));
    assert!(!todo.has_tag("owner"));
    assert_eq!(todo.get_tag("owner"), None);
}

#[test]
fn test_render_sorts_tags_by_key() {
    let mut todo = Todo::new("Task");
    todo.add_tag("zeta", "1");
    todo.add_tag("alpha", "2");
    todo.add_tag("mid", "3");
    assert_eq!(todo.render(), "Task alpha:2 mid:3 zeta:1");
}
