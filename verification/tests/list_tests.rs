use todo_txt::{Date, Priority, Todo, TodoError, TodoList};

#[test]
fn test_new_list() {
    let list = TodoList::new();
    assert!(list.is_empty());
    assert_eq!(list.len(), 0);
}

#[test]
fn test_add_and_get() {
    let mut list = TodoList::new();
    let todo = Todo::new("Test task");
    list.add(todo.clone());

    assert_eq!(list.len(), 1);
    assert_eq!(list.get(0).unwrap().description, "Test task");
}

#[test]
fn test_remove() {
    let mut list = TodoList::new();
    list.add(Todo::new("Task 1"));
    list.add(Todo::new("Task 2"));

    let removed = list.remove(0).unwrap();
    assert_eq!(removed.description, "Task 1");
    assert_eq!(list.len(), 1);
    assert_eq!(list.get(0).unwrap().description, "Task 2");
}

#[test]
fn test_filter_completed() {
    let mut list = TodoList::new();
    let mut todo1 = Todo::new("Task 1");
    todo1.complete();
    list.add(todo1);
    list.add(Todo::new("Task 2"));

    let completed = list.completed();
    assert_eq!(completed.len(), 1);

    let incomplete = list.incomplete();
    assert_eq!(incomplete.len(), 1);
}

#[test]
fn list_test_with_priority() {
    let mut list = TodoList::new();
    let priority_a = Priority::new('A').unwrap();
    list.add(Todo::new("Task 1").with_priority(priority_a));
    list.add(Todo::new("Task 2"));

    let high_priority = list.with_priority(priority_a);
    assert_eq!(high_priority.len(), 1);
}

#[test]
fn test_sort_by_priority() {
    let mut list = TodoList::new();
    list.add(Todo::new("Task C").with_priority(Priority::new('C').unwrap()));
    list.add(Todo::new("Task A").with_priority(Priority::new('A').unwrap()));
    list.add(Todo::new("Task B").with_priority(Priority::new('B').unwrap()));

    list.sort_by_priority();

    assert_eq!(list.get(0).unwrap().priority.unwrap().as_char(), 'A');
    assert_eq!(list.get(1).unwrap().priority.unwrap().as_char(), 'B');
    assert_eq!(list.get(2).unwrap().priority.unwrap().as_char(), 'C');
}

#[test]
fn test_from_string() {
    let content = "(A) Task 1\n(B) Task 2 +Project @context\nx 2024-11-03 Task 3";
    let list = TodoList::from_string(content).unwrap();

    assert_eq!(list.len(), 3);
    assert!(list.get(2).unwrap().completed);
}

#[test]
fn test_to_string() {
    let mut list = TodoList::new();
    list.add(Todo::new("Task 1").with_priority(Priority::new('A').unwrap()));
    list.add(Todo::new("Task 2"));

    let output = list.to_text();
    assert!(output.contains("(A) Task 1"));
    assert!(output.contains("Task 2"));
}

#[test]
fn test_sort_by_priority_descriptions_follow() {
    let mut list = TodoList::new();
    list.add(Todo::new("Task C").with_priority(Priority::new('C').unwrap()));
    list.add(Todo::new("Task A").with_priority(Priority::new('A').unwrap()));
    list.add(Todo::new("Task B").with_priority(Priority::new('B').unwrap()));

    list.sort_by_priority();

    assert_eq!(list.get(0).unwrap().description, "Task A");
    assert_eq!(list.get(1).unwrap().description, "Task B");
    assert_eq!(list.get(2).unwrap().description, "Task C");
}

#[test]
fn test_sort_by_priority_none_last_and_stable() {
    let mut list = TodoList::new();
    list.add(Todo::new("first none"));
    list.add(Todo::new("b").with_priority(Priority::new('B').unwrap()));
    list.add(Todo::new("second none"));
    list.add(Todo::new("a").with_priority(Priority::new('A').unwrap()));

    list.sort_by_priority();

    assert_eq!(list.get(0).unwrap().description, "a");
    assert_eq!(list.get(1).unwrap().description, "b");
    assert_eq!(list.get(2).unwrap().description, "first none");
    assert_eq!(list.get(3).unwrap().description, "second none");
}

#[test]
fn test_sort_by_creation_date_most_recent_first() {
    let mut list = TodoList::new();
    list.add(Todo::new("old").with_creation_date(Date::new(2023, 1, 15).unwrap()));
    list.add(Todo::new("undated"));
    list.add(Todo::new("new").with_creation_date(Date::new(2024, 6, 1).unwrap()));

    list.sort_by_creation_date();

    assert_eq!(list.get(0).unwrap().description, "new");
    assert_eq!(list.get(1).unwrap().description, "old");
    assert_eq!(list.get(2).unwrap().description, "undated");
}

#[test]
fn test_sort_by_description_lexicographic() {
    let mut list = TodoList::new();
    list.add(Todo::new("pears"));
    list.add(Todo::new("apples"));
    list.add(Todo::new("oranges"));

    list.sort_by_description();

    assert_eq!(list.get(0).unwrap().description, "apples");
    assert_eq!(list.get(1).unwrap().description, "oranges");
    assert_eq!(list.get(2).unwrap().description, "pears");
}

#[test]
fn test_remove_first_of_two() {
    let mut list = TodoList::new();
    list.add(Todo::new("Task 1"));
    list.add(Todo::new("Task 2"));

    let removed = list.remove(0).unwrap();
    assert_eq!(removed.description, "Task 1");
    assert_eq!(list.len(), 1);
    assert_eq!(list.get(0).unwrap().description, "Task 2");
}

#[test]
fn test_remove_out_of_bounds_carries_index() {
    let mut list = TodoList::new();
    list.add(Todo::new("Task 1"));
    match list.remove(5) {
        Err(TodoError::IndexOutOfBounds(i)) => assert_eq!(i, 5),
        other => panic!("expected IndexOutOfBounds, got {:?}", other),
    }
    match list.remove(1) {
        Err(TodoError::IndexOutOfBounds(i)) => assert_eq!(i, 1),
        other => panic!("expected IndexOutOfBounds, got {:?}", other),
    }
    assert_eq!(list.len(), 1);
}

#[test]
fn test_with_project_and_incomplete_chain() {
    let mut work_done = Todo::new("done work");
    work_done.add_project("Work");
    work_done.complete();
    let mut work_open = Todo::new("open work");
    work_open.add_project("Work");
    let other = Todo::new("errand");

    let mut list = TodoList::new();
    list.add(work_done);
    list.add(work_open);
    list.add(other);

    let work: Vec<_> = list.with_project("Work");
    assert_eq!(work.len(), 2);
    assert_eq!(work[0].description, "done work");
    assert_eq!(work[1].description, "open work");

    let open_work: Vec<_> = work.into_iter().filter(|t| !t.completed).collect();
    assert_eq!(open_work.len(), 1);
    assert_eq!(open_work[0].description, "open work");
}

#[test]
fn test_get_mut_updates_in_place() {
    let mut list = TodoList::new();
    list.add(Todo::new("Task 1"));
    list.get_mut(0).unwrap().description = "Renamed".to_string();
    assert_eq!(list.get(0).unwrap().description, "Renamed");
    assert!(list.get_mut(9).is_none());
}

#[test]
fn test_all_mut_updates_in_place() {
    let mut list = TodoList::new();
    list.add(Todo::new("Task 1"));
    list.add(Todo::new("Task 2"));
    for t in list.all_mut() {
        t.complete();
    }
    assert_eq!(list.completed().len(), 2);
    assert_eq!(list.all().len(), 2);
}

#[test]
fn test_sort_by_custom_comparison() {
    let mut list = TodoList::new();
    list.add(Todo::new("bb"));
    list.add(Todo::new("a"));
    list.add(Todo::new("ccc"));
    list.sort_by(|x: &Todo, y: &Todo| x.description.len().cmp(&y.description.len()));
    assert_eq!(list.get(0).unwrap().description, "a");
    assert_eq!(list.get(1).unwrap().description, "bb");
    assert_eq!(list.get(2).unwrap().description, "ccc");
}

#[test]
fn test_sort_by_is_stable_on_ties() {
    let mut list = TodoList::new();
    list.add(Todo::new("first"));
    list.add(Todo::new("second"));
    list.add(Todo::new("third"));
    list.sort_by(|_: &Todo, _: &Todo| std::cmp::Ordering::Equal);
    assert_eq!(list.get(0).unwrap().description, "first");
    assert_eq!(list.get(1).unwrap().description, "second");
    assert_eq!(list.get(2).unwrap().description, "third");
}

#[test]
fn test_filter_keeps_all_matches_in_order() {
    let mut list = TodoList::new();
    list.add(Todo::new("keep one"));
    list.add(Todo::new("drop"));
    list.add(Todo::new("keep two"));
    let r = list.filter(|t: &Todo| t.description.starts_with("keep"));
    assert_eq!(r.len(), 2);
    assert_eq!(r[0].description, "keep one");
    assert_eq!(r[1].description, "keep two");
}

#[test]
fn test_with_context_filter() {
    let mut a = Todo::new("call");
    a.add_context("phone");
    let b = Todo::new("write");
    let mut list = TodoList::new();
    list.add(a);
    list.add(b);
    let r = list.with_context("phone");
    assert_eq!(r.len(), 1);
    assert_eq!(r[0].description, "call");
}

#[test]
fn test_filter_by_predicate() {
    let mut list = TodoList::new();
    list.add(Todo::new("short"));
    list.add(Todo::new("a much longer description"));
    let r = list.filter(|t: &Todo| t.description.len() > 10);
    assert_eq!(r.len(), 1);
    assert_eq!(r[0].description, "a much longer description");
}

#[test]
fn test_from_string_with_warnings_reports_bad_lines() {
    let content = "(A) Task 1\ndue:2024-11-10\n\n   \nx done thing";
    let (list, warnings) = TodoList::from_string_with_warnings(content);
    assert_eq!(list.len(), 2);
    assert_eq!(warnings.len(), 1);
    assert_eq!(warnings[0].0, 2);
    match &warnings[0].1 {
        TodoError::ParseError(l) => assert_eq!(l, "due:2024-11-10"),
        other => panic!("expected ParseError, got {:?}", other),
    }
}

#[test]
fn test_save_round_trip_through_text() {
    let content = "(A) Task 1 +P\nx 2024-11-03 Task 2";
    let list = TodoList::from_string(content).unwrap();
    let text = list.to_text();
    assert_eq!(text, content);
    let reloaded = TodoList::from_string(&text).unwrap();
    assert_eq!(reloaded.len(), list.len());
}

#[test]
fn test_date_new_validates_calendar() {
    assert!(Date::new(2024, 2, 29).is_some());
    assert!(Date::new(2023, 2, 29).is_none());
    assert!(Date::new(1900, 2, 29).is_none());
    assert!(Date::new(2000, 2, 29).is_some());
    assert!(Date::new(2024, 0, 1).is_none());
    assert!(Date::new(2024, 13, 1).is_none());
    assert!(Date::new(2024, 4, 31).is_none());
    assert!(Date::new(2024, 12, 31).is_some());
}

#[test]
fn test_date_parse_errors_carry_input() {
    match Date::parse("2024-13-01") {
        Err(TodoError::InvalidDateFormat(s)) => assert_eq!(s, "2024-13-01"),
        other => panic!("expected InvalidDateFormat, got {:?}", other),
    }
    assert!(Date::parse("2024-1-1").is_err());
    assert!(Date::parse("not-a-date").is_err());
    let d = Date::parse("2024-11-03").unwrap();
    assert_eq!((d.year(), d.month(), d.day()), (2024, 11, 3));
    assert_eq!(d.to_text(), "2024-11-03");
}
