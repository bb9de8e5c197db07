//! The encoder's output is plain JSON: serde_json must read it back with
//! the same contents, special characters included.

use tt::store_codec::encode_store;
use tt::todo::{Todo, TodoStore};

#[test]
fn test_serde_json_reads_encoded_store() {
    let store = TodoStore {
        todos: vec![
            Todo {
                title: "a\"b\\c\nd\te\u{1}f".to_string(),
                completed: true,
                created_at: "2024-05-01T10:00:00+00:00".to_string(),
                priority: 2,
            },
            Todo {
                title: "unicode caf\u{e9} \u{2713}".to_string(),
                completed: false,
                created_at: "2020-01-01T00:00:00+00:00".to_string(),
                priority: 4,
            },
        ],
    };
    let text = encode_store(&store);
    let value: serde_json::Value = serde_json::from_str(&text).unwrap();
    let todos = value["todos"].as_array().unwrap();
    assert_eq!(todos.len(), 2);
    assert_eq!(todos[0]["title"].as_str().unwrap(), "a\"b\\c\nd\te\u{1}f");
    assert_eq!(todos[0]["completed"].as_bool().unwrap(), true);
    assert_eq!(
        todos[0]["created_at"].as_str().unwrap(),
        "2024-05-01T10:00:00+00:00"
    );
    assert_eq!(todos[0]["priority"].as_u64().unwrap(), 2);
    assert_eq!(todos[1]["title"].as_str().unwrap(), "unicode caf\u{e9} \u{2713}");
    assert_eq!(todos[1]["completed"].as_bool().unwrap(), false);
    assert_eq!(todos[1]["priority"].as_u64().unwrap(), 4);
}

#[test]
fn test_serde_json_reads_empty_encoded_store() {
    let store = TodoStore { todos: Vec::new() };
    let value: serde_json::Value = serde_json::from_str(&encode_store(&store)).unwrap();
    assert_eq!(value["todos"].as_array().unwrap().len(), 0);
}
