//! A small task-list library: todo records with priorities, an in-memory
//! collection addressed by position, and a JSON text format for the store
//! file, all with verified contracts.

pub mod store_codec;
pub mod todo;
pub mod todo_manager;
