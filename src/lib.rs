//! A task-tracking record store: the task record, its byte encoding, and the
//! decisions that every store operation makes on the value stored under a key.

pub mod codec;
pub mod date;
pub mod laws;
pub mod record;
pub mod store;
pub mod strings;

pub use codec::{decode, encode};
pub use date::{canonical_due_date, format_due_date};
pub use record::{Status, Todo, TodoError, TodoView};
pub use store::{
    add_due_date, add_todo, add_todo_note, add_todo_tag, change_due_date, complete_todo,
    delete_todo, edit_todo_note, get_all_todos, remove_due_date, remove_todo_note,
    remove_todo_tag, set_due_date, uncomplete_todo,
};
