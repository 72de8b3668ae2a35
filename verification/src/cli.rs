//! The command-line surface of the tool, as plain data.  Flag parsing itself
//! is an external collaborator; it hands the engine a value of this shape.

use vstd::prelude::*;

verus! {

/// The parsed command line: an optional explicit manager selection, a flag
/// that inverts the selection, and the requested workflow.
pub struct Cli {
    /// The managers to run the command for.
    pub managers: Option<Vec<String>>,
    /// Run all non-specified managers instead of the specified ones.
    pub non_specified: bool,
    /// The requested workflow.
    pub command: Commands,
}

/// The workflows the orchestrator knows.
#[derive(PartialEq, Eq, Structural, Clone, Copy, Debug)]
pub enum Commands {
    /// Apply the configured state to the system.
    Build,
    /// Report the difference between the system and the configuration.
    Diff,
    /// Report the currently configured state.
    List,
    /// Upgrade all managers.
    Upgrade,
}

} // verus!
