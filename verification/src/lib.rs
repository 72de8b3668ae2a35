//! Reconciles the declared desired state of a set of item managers against
//! what is installed on the host, and plans the minimal add/remove commands
//! needed to converge.

pub mod apply;
pub mod cli;
pub mod errors;
pub mod manager;
pub mod reconcile;
pub mod registry;
pub mod resolve;
pub mod strings;
pub mod template;
pub mod toml_input;
