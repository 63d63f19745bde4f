//! A terminal sticky-note keeper: notes live in a Markdown file and may hold
//! checkbox lines.
pub mod text;
pub mod todo;
pub mod note;
pub mod app;
pub mod reload;
pub mod display;

pub use todo::{is_todo, is_todo_checked, is_todo_unchecked, todo_progress, toggle_todo};
pub use note::{parse_notes, serialize_notes, Note};
pub use app::{App, Effect, Key, KeyPress, Mode};
