use vstd::prelude::*;

use crate::host::HostValue;
use crate::reference::CellPointer;

verus! {

/// Why an expression text could not be parsed.
#[derive(Debug, Clone, Copy, PartialEq, Eq, Structural)]
pub enum ExpressionError {
    /// A comma outside of any function call.
    CommaAtRoot,
    /// Two separating commas with nothing between them.
    EmptyArgument,
    /// A function call whose bracket is never closed.
    UnclosedFunction,
    /// A closing bracket without a matching opening one.
    UnopenedFunction,
    /// A double quote that is never closed.
    UnclosedQuote,
}

/// The errors of the engine.
#[derive(Debug)]
pub enum SheetError {
    /// Malformed column letters.
    BadColumnName,
    /// A text that is not a cell or range reference.
    BadReference,
    /// A formula that does not parse.
    BadExpression(ExpressionError),
    /// A shift that leaves the addressable range.
    BadCopy,
    /// The chain of keys from the edited cell back to itself.
    CircularDependency(Vec<CellPointer>),
    /// The source cell of a copy does not exist.
    NotFound,
    /// A malformed key in a serialized document.
    BadSerialization,
    /// An error raised by a host function or by the display callback.
    HostError(HostValue),
}

} // verus!
