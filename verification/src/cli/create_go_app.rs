//! Arguments of the `create-go-app` subcommand.

use vstd::prelude::*;

verus! {

/// What `create-go-app` was asked to build.
#[derive(Debug, Clone)]
pub struct GoArgs {
    /// Project name
    pub project: String,
    /// REST framework to use (gin/echo)
    pub rest_framework: RestFramework,
}

/// The REST framework a generated Go server is built on.
#[derive(Copy, Clone, Debug, PartialEq, Eq, Structural)]
pub enum RestFramework {
    Gin,
    Echo,
}

} // verus!
