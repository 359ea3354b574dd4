//! Arguments of the `init` subcommand.

use vstd::prelude::*;

verus! {

/// What `init` was asked to set up.
#[derive(Debug, Clone)]
pub struct InitArgs {
    /// Programming language
    pub lang: Languages,
    /// Project name
    pub project: String,
    /// REST framework to use (gin/echo)
    pub rest_framework: RestFramework,
}

/// The languages a project can be scaffolded for.
#[derive(Copy, Clone, Debug, PartialEq, Eq, Structural)]
pub enum Languages {
    Go,
    Rust,
}

/// The REST framework choice as `init` takes it.
#[derive(Copy, Clone, Debug, PartialEq, Eq, Structural)]
pub enum RestFramework {
    Gin,
    Echo,
}

} // verus!
