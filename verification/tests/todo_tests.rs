//! Tests of the todo record: construction, validation, and the setters.

use tt::todo::{Todo, TodoError};

#[test]
fn test_new_todo() {
    let title = "Test todo".to_string();
    let todo = Todo::new(title.clone(), 4).unwrap();

    assert_eq!(todo.title, title);
    assert_eq!(todo.completed, false);
    assert_eq!(todo.priority, 4);
    assert!(!todo.created_at.is_empty());
}

#[test]
fn test_new_todo_with_priority() {
    let title = "Test todo".to_string();
    let todo = Todo::new(title.clone(), 1).unwrap();

    assert_eq!(todo.title, title);
    assert_eq!(todo.completed, false);
    assert_eq!(todo.priority, 1);
    assert!(!todo.created_at.is_empty());
}

#[test]
fn test_new_todo_with_invalid_priority() {
    let title = "Test todo".to_string();
    assert!(Todo::new(title.clone(), 0).is_err());
    assert!(Todo::new(title, 5).is_err());
}

#[test]
fn todo_test_toggle_completed() {
    let mut todo = Todo::new("Test".to_string(), 4).unwrap();

    assert_eq!(todo.completed, false);

    todo.toggle_completed();
    assert_eq!(todo.completed, true);

    todo.toggle_completed();
    assert_eq!(todo.completed, false);
}

#[test]
fn test_set_completed() {
    let mut todo = Todo::new("Test".to_string(), 4).unwrap();

    assert_eq!(todo.completed, false);

    todo.set_completed(true);
    assert_eq!(todo.completed, true);

    todo.set_completed(false);
    assert_eq!(todo.completed, false);
}

#[test]
fn test_set_priority() {
    let mut todo = Todo::new("Test".to_string(), 4).unwrap();
    assert_eq!(todo.priority, 4);

    assert!(todo.set_priority(1).is_ok());
    assert_eq!(todo.priority, 1);

    assert!(todo.set_priority(3).is_ok());
    assert_eq!(todo.priority, 3);

    assert!(todo.set_priority(0).is_err());
    assert!(todo.set_priority(5).is_err());
    assert_eq!(todo.priority, 3);
}

#[test]
fn test_validate_priority() {
    assert!(Todo::validate_priority(1).is_ok());
    assert!(Todo::validate_priority(2).is_ok());
    assert!(Todo::validate_priority(3).is_ok());
    assert!(Todo::validate_priority(4).is_ok());

    assert!(Todo::validate_priority(0).is_err());
    assert!(Todo::validate_priority(5).is_err());
    assert!(Todo::validate_priority(255).is_err());
}

#[test]
fn test_default_todo() {
    let todo = Todo::default();

    assert_eq!(todo.title, "");
    assert_eq!(todo.completed, false);
    assert_eq!(todo.priority, 4);
    assert!(!todo.created_at.is_empty());
}

#[test]
fn test_validation_error_carries_value() {
    assert_eq!(Todo::validate_priority(9), Err(TodoError::Validation { priority: 9 }));
    assert_eq!(Todo::validate_priority(0), Err(TodoError::Validation { priority: 0 }));
    let err = Todo::new("x".to_string(), 200).unwrap_err();
    assert_eq!(err, TodoError::Validation { priority: 200 });
}
