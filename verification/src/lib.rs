//! Translation of compact sort expressions such as `-id,+aired-` into the
//! body of a SQL `ORDER BY` clause.

pub mod chars;
pub mod lemmas;
pub mod token;
pub mod translate;

pub use crate::translate::sort_str_to_sql;
