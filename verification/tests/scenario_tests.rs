//! Scenario tests: whole operation sequences, validation bounds, the
//! all-or-nothing edit, and index errors on the empty collection.

use tt::todo::TodoError;
use tt::todo_manager::TodoManager;

#[test]
fn test_add_toggle_delete_scenario() {
    let mut manager = TodoManager::new();
    manager.add_todo("Buy milk".to_string(), 2).unwrap();
    let todos = manager.list_todos();
    assert_eq!(todos.len(), 1);
    assert_eq!(todos[0].title, "Buy milk");
    assert_eq!(todos[0].completed, false);
    assert_eq!(todos[0].priority, 2);

    manager.toggle_completed(0).unwrap();
    assert_eq!(manager.get_todo(0).unwrap().completed, true);

    manager.delete_todo(0).unwrap();
    assert!(manager.list_todos().is_empty());
    assert_eq!(manager.delete_todo(0), Err(TodoError::NotFound { index: 0 }));
}

#[test]
fn test_delete_shifts_positions() {
    let mut manager = TodoManager::new();
    manager.add_todo("A".to_string(), 1).unwrap();
    manager.add_todo("B".to_string(), 1).unwrap();
    manager.delete_todo(0).unwrap();
    assert_eq!(manager.get_todo(0).unwrap().title, "B");
}

#[test]
fn test_add_rejects_out_of_range_priorities() {
    let mut manager = TodoManager::new();
    for p in [0u8, 5, 6, 100, 255] {
        let err = manager.add_todo("task".to_string(), p).unwrap_err();
        assert_eq!(err, TodoError::Validation { priority: p });
        assert_eq!(manager.list_todos().len(), 0);
    }
}

#[test]
fn test_add_accepts_every_priority_in_range() {
    let mut manager = TodoManager::new();
    for p in [1u8, 2, 3, 4] {
        let before = manager.list_todos().len();
        let todo = manager.add_todo(format!("task {}", p), p).unwrap();
        assert_eq!(todo.completed, false);
        assert_eq!(todo.priority, p);
        assert_eq!(manager.list_todos().len(), before + 1);
    }
}

#[test]
fn test_toggle_twice_restores() {
    let mut manager = TodoManager::new();
    manager.add_todo("a".to_string(), 3).unwrap();
    manager.add_todo("b".to_string(), 2).unwrap();
    manager.mark_completed(1).unwrap();
    for index in [0usize, 1] {
        let before = manager.get_todo(index).unwrap().completed;
        manager.toggle_completed(index).unwrap();
        assert_ne!(manager.get_todo(index).unwrap().completed, before);
        manager.toggle_completed(index).unwrap();
        assert_eq!(manager.get_todo(index).unwrap().completed, before);
    }
}

#[test]
fn test_empty_collection_rejects_every_index() {
    let mut manager = TodoManager::new();
    for index in [0usize, 1, 7, 99, usize::MAX] {
        assert_eq!(manager.mark_completed(index), Err(TodoError::NotFound { index }));
        assert_eq!(manager.mark_incomplete(index), Err(TodoError::NotFound { index }));
        assert_eq!(manager.toggle_completed(index), Err(TodoError::NotFound { index }));
        assert_eq!(manager.delete_todo(index), Err(TodoError::NotFound { index }));
        assert_eq!(
            manager.edit_todo(index, Some("x".to_string()), None),
            Err(TodoError::NotFound { index })
        );
        assert!(manager.get_todo(index).is_none());
    }
}

#[test]
fn test_edit_title_only() {
    let mut manager = TodoManager::new();
    manager.add_todo("old".to_string(), 2).unwrap();
    manager.edit_todo(0, Some("new".to_string()), None).unwrap();
    let todo = manager.get_todo(0).unwrap();
    assert_eq!(todo.title, "new");
    assert_eq!(todo.priority, 2);
}

#[test]
fn test_edit_priority_only() {
    let mut manager = TodoManager::new();
    manager.add_todo("task".to_string(), 2).unwrap();
    manager.edit_todo(0, None, Some(4)).unwrap();
    let todo = manager.get_todo(0).unwrap();
    assert_eq!(todo.title, "task");
    assert_eq!(todo.priority, 4);
}

#[test]
fn test_edit_both_fields() {
    let mut manager = TodoManager::new();
    manager.add_todo("task".to_string(), 2).unwrap();
    manager.edit_todo(0, Some("renamed".to_string()), Some(1)).unwrap();
    let todo = manager.get_todo(0).unwrap();
    assert_eq!(todo.title, "renamed");
    assert_eq!(todo.priority, 1);
}

#[test]
fn test_edit_is_all_or_nothing_on_invalid_priority() {
    let mut manager = TodoManager::new();
    manager.add_todo("task".to_string(), 2).unwrap();
    let err = manager.edit_todo(0, Some("renamed".to_string()), Some(9)).unwrap_err();
    assert_eq!(err, TodoError::Validation { priority: 9 });
    let todo = manager.get_todo(0).unwrap();
    assert_eq!(todo.title, "task");
    assert_eq!(todo.priority, 2);
}

#[test]
fn test_edit_keeps_completed_and_timestamp() {
    let mut manager = TodoManager::new();
    manager.add_todo("task".to_string(), 2).unwrap();
    manager.mark_completed(0).unwrap();
    let stamp = manager.get_todo(0).unwrap().created_at.clone();
    manager.edit_todo(0, Some("renamed".to_string()), Some(3)).unwrap();
    let todo = manager.get_todo(0).unwrap();
    assert_eq!(todo.completed, true);
    assert_eq!(todo.created_at, stamp);
}

#[test]
fn test_mark_completed_is_idempotent() {
    let mut manager = TodoManager::new();
    manager.add_todo("task".to_string(), 1).unwrap();
    manager.mark_completed(0).unwrap();
    manager.mark_completed(0).unwrap();
    assert!(manager.get_todo(0).unwrap().completed);
    manager.mark_incomplete(0).unwrap();
    manager.mark_incomplete(0).unwrap();
    assert!(!manager.get_todo(0).unwrap().completed);
}

#[test]
fn test_manager_validate_priority() {
    assert!(TodoManager::validate_priority(1).is_ok());
    assert!(TodoManager::validate_priority(4).is_ok());
    assert_eq!(
        TodoManager::validate_priority(5),
        Err(TodoError::Validation { priority: 5 })
    );
}
