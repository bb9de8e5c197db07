//! Tests of the store text: the round trip through encoding and decoding,
//! the pretty-printed and legacy forms the parser must accept, and the
//! texts it must refuse.

use tt::store_codec::{decode_store, encode_store};
use tt::todo::{Todo, TodoError, TodoStore};
use tt::todo_manager::TodoManager;

fn store_of(records: Vec<(&str, bool, &str, u8)>) -> TodoStore {
    let mut todos: Vec<Todo> = Vec::new();
    for (title, completed, created_at, priority) in records {
        todos.push(Todo {
            title: title.to_string(),
            completed,
            created_at: created_at.to_string(),
            priority,
        });
    }
    TodoStore { todos }
}

fn assert_same_records(a: &TodoStore, b: &TodoStore) {
    assert_eq!(a.todos.len(), b.todos.len());
    for (x, y) in a.todos.iter().zip(b.todos.iter()) {
        assert_eq!(x.title, y.title);
        assert_eq!(x.completed, y.completed);
        assert_eq!(x.created_at, y.created_at);
        assert_eq!(x.priority, y.priority);
    }
}

#[test]
fn test_encode_empty_store() {
    let store = store_of(vec![]);
    assert_eq!(encode_store(&store), "{\"todos\":[]}");
}

#[test]
fn test_encode_one_record_exactly() {
    let store = store_of(vec![("Buy milk", false, "2024-05-01T10:00:00+00:00", 2)]);
    assert_eq!(
        encode_store(&store),
        "{\"todos\":[{\"title\":\"Buy milk\",\"completed\":false,\"created_at\":\"2024-05-01T10:00:00+00:00\",\"priority\":2}]}"
    );
}

#[test]
fn test_encode_escapes_specials() {
    let store = store_of(vec![("a\"b\\c\nd\te\u{1}f", true, "t", 1)]);
    assert_eq!(
        encode_store(&store),
        "{\"todos\":[{\"title\":\"a\\\"b\\\\c\\u000ad\\u0009e\\u0001f\",\"completed\":true,\"created_at\":\"t\",\"priority\":1}]}"
    );
}

#[test]
fn test_round_trip_preserves_everything() {
    let store = store_of(vec![
        ("plain", false, "2020-01-01T00:00:00+00:00", 1),
        ("with \"quotes\" and \\slashes\\", true, "2021-06-15T12:30:45+00:00", 2),
        ("newline\nand tab\tand bell\u{7}", false, "2022-12-31T23:59:59+00:00", 3),
        ("unicode caf\u{e9} \u{2713} \u{1f600}", true, "2023-03-03T03:03:03+00:00", 4),
        ("", false, "", 4),
    ]);
    let text = encode_store(&store);
    let back = decode_store(&text).unwrap();
    assert_same_records(&store, &back);
}

#[test]
fn test_round_trip_of_empty_store() {
    let text = encode_store(&store_of(vec![]));
    let back = decode_store(&text).unwrap();
    assert!(back.todos.is_empty());
}

#[test]
fn test_decode_pretty_printed_text() {
    let text = "{\n  \"todos\": [\n    {\n      \"title\": \"First\",\n      \"completed\": true,\n      \"created_at\": \"2024-01-01T00:00:00+00:00\",\n      \"priority\": 1\n    },\n    {\n      \"title\": \"Second\",\n      \"completed\": false,\n      \"created_at\": \"2024-01-02T00:00:00+00:00\",\n      \"priority\": 4\n    }\n  ]\n}";
    let store = decode_store(text).unwrap();
    assert_eq!(store.todos.len(), 2);
    assert_eq!(store.todos[0].title, "First");
    assert_eq!(store.todos[0].completed, true);
    assert_eq!(store.todos[0].priority, 1);
    assert_eq!(store.todos[1].title, "Second");
    assert_eq!(store.todos[1].priority, 4);
}

#[test]
fn test_decode_record_without_priority_defaults_to_4() {
    let text = "{\n  \"todos\": [\n    {\n      \"title\": \"Old task\",\n      \"completed\": false,\n      \"created_at\": \"2020-01-01T00:00:00+00:00\"\n    }\n  ]\n}";
    let store = decode_store(text).unwrap();
    assert_eq!(store.todos.len(), 1);
    assert_eq!(store.todos[0].title, "Old task");
    assert_eq!(store.todos[0].priority, 4);
}

#[test]
fn test_decode_mixed_legacy_and_current_records() {
    let text = "{\"todos\":[{\"title\":\"old\",\"completed\":true,\"created_at\":\"t1\"},{\"title\":\"new\",\"completed\":false,\"created_at\":\"t2\",\"priority\":2}]}";
    let store = decode_store(text).unwrap();
    assert_eq!(store.todos[0].priority, 4);
    assert_eq!(store.todos[1].priority, 2);
}

#[test]
fn test_decode_short_and_hex_escapes() {
    let text = "{\"todos\":[{\"title\":\"a\\\"b\\\\c\\/d\\be\\ff\\ng\\rh\\ti\\u0041j\\u001fk\",\"completed\":false,\"created_at\":\"t\",\"priority\":3}]}";
    let store = decode_store(text).unwrap();
    assert_eq!(
        store.todos[0].title,
        "a\"b\\c/d\u{8}e\u{c}f\ng\rh\tiAj\u{1f}k"
    );
}

#[test]
fn test_decode_rejects_malformed_texts() {
    let bad = [
        "",
        "   ",
        "garbage",
        "{}",
        "{\"todos\":}",
        "{\"todos\":{}}",
        "{\"todos\":[",
        "{\"todos\":[]",
        "{\"todos\":[]}}",
        "{\"todos\":[]} trailing",
        "[\"todos\"]",
        "{\"items\":[]}",
        "{\"todos\":[{}]}",
        "{\"todos\":[{\"title\":\"x\"}]}",
        "{\"todos\":[{\"title\":\"x\",\"completed\":false}]}",
        "{\"todos\":[{\"title\":\"x\",\"completed\":maybe,\"created_at\":\"t\"}]}",
        "{\"todos\":[{\"title\":\"x\",\"completed\":false,\"created_at\":\"t\",}]}",
        "{\"todos\":[{\"title\":\"x\",\"completed\":false,\"created_at\":\"t\"},]}",
        "{\"todos\":[{\"title\":\"unterminated,\"completed\":false,\"created_at\":\"t\"}]}",
        "{\"todos\":[{\"title\":\"bad\\escape\",\"completed\":false,\"created_at\":\"t\"}]}",
    ];
    for text in bad {
        assert_eq!(decode_store(text).unwrap_err(), TodoError::Format, "accepted: {}", text);
    }
}

#[test]
fn test_decode_rejects_out_of_range_priorities() {
    for p in ["0", "5", "12", "255", "256", "1000"] {
        let text = format!(
            "{{\"todos\":[{{\"title\":\"x\",\"completed\":false,\"created_at\":\"t\",\"priority\":{}}}]}}",
            p
        );
        assert_eq!(decode_store(&text).unwrap_err(), TodoError::Format, "accepted priority {}", p);
    }
}

#[test]
fn test_from_store_rejects_invalid_priority() {
    let store = store_of(vec![("ok", false, "t", 2), ("bad", false, "t", 9)]);
    let err = TodoManager::from_store(store).unwrap_err();
    assert_eq!(err, TodoError::Validation { priority: 9 });
}

#[test]
fn test_manager_round_trip_through_text() {
    let mut manager = TodoManager::new();
    manager.add_todo("alpha".to_string(), 1).unwrap();
    manager.add_todo("beta".to_string(), 3).unwrap();
    manager.mark_completed(1).unwrap();
    let text = encode_store(&manager.to_store());
    let reloaded = TodoManager::from_store(decode_store(&text).unwrap()).unwrap();
    let before = manager.list_todos();
    let after = reloaded.list_todos();
    assert_eq!(before.len(), after.len());
    for (x, y) in before.iter().zip(after.iter()) {
        assert_eq!(x.title, y.title);
        assert_eq!(x.completed, y.completed);
        assert_eq!(x.created_at, y.created_at);
        assert_eq!(x.priority, y.priority);
    }
}
