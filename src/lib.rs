//! A reactive spreadsheet engine: cells hold raw text, formulas are parsed into expression
//! trees over cell and range references, and every change is propagated to the cells that
//! read it.
use vstd::prelude::*;

pub mod column;
pub mod deps;
pub mod error;
pub mod expression;
pub mod graph;
pub mod host;
pub mod index;
pub mod parser;
pub mod reference;
pub mod state;
pub mod store;
pub mod text;

pub use column::{column_name_to_usize, try_column_name_to_usize, usize_to_column_name};
pub use deps::Dependencies;
pub use error::{ExpressionError, SheetError};
pub use expression::Expression;
pub use host::{Host, HostValue};
pub use parser::parse_expression;
pub use reference::{CellPointer, Reference};
pub use state::{ResolveDisplay, SerializableState, State};
pub use store::Cell;

verus! {

} // verus!
