//! The error taxonomy of the engine.  Every failure carries enough context
//! (which file, which manager, which command) for the operator to act on it;
//! rendering the message is left to the caller.

use vstd::prelude::*;

verus! {

/// One error class per failure mode of the engine.
#[derive(Debug)]
pub enum MetaError {
    /// A manager or fragment file could not be parsed at all.
    LoadError { path: String, detail: String },
    /// A definition or fragment held an unknown field, a missing field, or a
    /// value of the wrong type.
    SchemaError { subject: String, field: String },
    /// A loaded manager that no line of the order file names.
    OrderingError { manager: String },
    /// An explicitly requested manager was not found among the loaded ones.
    SelectionError { manager: String },
    /// An imported fragment was not found.
    ResolveError { path: String },
    /// A command template holds both placeholder tokens (`ambiguous`), or
    /// neither although one was required.
    TemplateError { template: String, ambiguous: bool },
    /// An external command failed, was not spawnable, or produced output that
    /// was not UTF-8.
    ExecError { command: String, detail: String },
}

} // verus!
