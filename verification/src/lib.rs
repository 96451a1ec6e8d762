//! A library for reading, representing, and writing tasks in the
//! Todo.txt plain-text format, with an in-memory collection type
//! supporting filtering and sorting.

use vstd::prelude::*;

pub mod date;
pub mod error;
pub mod list;
pub mod parser;
pub mod priority;
pub mod roundtrip;
pub mod strutil;
pub mod text;
pub mod todo;

pub use date::Date;
pub use error::TodoError;
pub use list::TodoList;
pub use parser::parse_todo;
pub use priority::Priority;
pub use todo::Todo;

verus! {

} // verus!
