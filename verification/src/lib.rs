//! A small task-list library: an ordered collection of tasks, each a line of
//! text with a completion flag, together with the line-oriented text format
//! that persists it.

pub mod commands;
pub mod storage;
pub mod text;
pub mod todo_list;

pub use todo_list::TodoList;
